//! Reshaping a container: given a plan of output tracks, each naming its
//! source channels (or silence), rewrite tracks, channels, the seek table
//! and the DATA payload so the output has the plan's layout, block by block.

use vstd::prelude::*;

use crate::brstm::{spec_block_offset, spec_block_size, spec_adpc_entry_offset, BrstmInfoWithData};
use crate::bytes::{push_bytes, push_zeros, zeros};
use crate::structs::{AdpcmChannelInformation, Channels, TrackDescription, TrackDescriptionV1};

verus! {

/// The kind of an additional (non-main) track: an alternative full mix, or
/// a layer added on top of the main track.
#[derive(PartialEq, Eq, Clone, Copy, Debug, Structural)]
pub enum AdditionalTrackKind {
    Normal,
    Additive,
}

/// One output track of a reshape plan, with a source for each channel.
#[derive(Debug, Clone, PartialEq, Eq, Structural)]
pub enum ReshapeTrackDef {
    Stereo { left: ReshapeSrc, right: ReshapeSrc },
    Mono { channel: ReshapeSrc },
}

/// The source of one output channel: a channel index of the original, or
/// silence.
#[derive(Debug, Clone, Copy, PartialEq, Eq, Structural)]
pub enum ReshapeSrc {
    Channel(u8),
    Empty,
}

/// Why a reshape was refused.
#[derive(Debug, Clone, Copy, PartialEq, Eq, Structural)]
pub enum ReshapeError {
    NotStereo,
    TrackNotExistent,
    ChannelNotExistent,
}

/// The first index at or behind `from` holding `kind`.
pub open spec fn spec_next_of_kind(
    orig: Seq<AdditionalTrackKind>,
    kind: AdditionalTrackKind,
    from: int,
) -> Option<int>
    decreases orig.len() - from,
        when from <= orig.len()
{
    if from < 0 || from >= orig.len() {
        None
    } else if orig[from] == kind {
        Some(from)
    } else {
        spec_next_of_kind(orig, kind, from + 1)
    }
}

/// The plan entry that routes original track `track_no` into the new
/// stereo/mono shape: stereo sources pass their pair through, a mono source
/// widened to stereo is duplicated, a stereo source narrowed to mono keeps
/// its left channel.
pub open spec fn spec_src_ref(track_no: int, orig_stereo: bool, new_stereo: bool) -> ReshapeTrackDef {
    if new_stereo {
        if orig_stereo {
            ReshapeTrackDef::Stereo {
                left: ReshapeSrc::Channel((track_no * 2) as u8),
                right: ReshapeSrc::Channel((track_no * 2 + 1) as u8),
            }
        } else {
            ReshapeTrackDef::Stereo {
                left: ReshapeSrc::Channel(track_no as u8),
                right: ReshapeSrc::Channel(track_no as u8),
            }
        }
    } else {
        if orig_stereo {
            ReshapeTrackDef::Mono { channel: ReshapeSrc::Channel((track_no * 2) as u8) }
        } else {
            ReshapeTrackDef::Mono { channel: ReshapeSrc::Channel(track_no as u8) }
        }
    }
}

/// The silent plan entry emitted when an additive source is missing.
pub open spec fn spec_empty_ref(new_stereo: bool) -> ReshapeTrackDef {
    if new_stereo {
        ReshapeTrackDef::Stereo { left: ReshapeSrc::Empty, right: ReshapeSrc::Empty }
    } else {
        ReshapeTrackDef::Mono { channel: ReshapeSrc::Empty }
    }
}

/// The plan entries for the additional tracks `new`, scanning the original's
/// additional tracks from positions `npos` (normal) and `apos` (additive).
pub open spec fn spec_calc_rest(
    orig: Seq<AdditionalTrackKind>,
    orig_stereo: bool,
    new: Seq<AdditionalTrackKind>,
    new_stereo: bool,
    npos: int,
    apos: int,
) -> Seq<ReshapeTrackDef>
    decreases new.len(),
{
    if new.len() == 0 {
        Seq::empty()
    } else {
        let (entry, npos2, apos2) = match new[0] {
            AdditionalTrackKind::Normal => {
                match spec_next_of_kind(orig, AdditionalTrackKind::Normal, npos) {
                    Some(i) => (spec_src_ref(i + 1, orig_stereo, new_stereo), i + 1, apos),
                    None => (spec_src_ref(0, orig_stereo, new_stereo), orig.len() as int, apos),
                }
            },
            AdditionalTrackKind::Additive => {
                match spec_next_of_kind(orig, AdditionalTrackKind::Additive, apos) {
                    Some(i) => (spec_src_ref(i + 1, orig_stereo, new_stereo), npos, i + 1),
                    None => (spec_empty_ref(new_stereo), npos, orig.len() as int),
                }
            },
        };
        seq![entry] + spec_calc_rest(orig, orig_stereo, new.skip(1), new_stereo, npos2, apos2)
    }
}

/// The whole plan: the main track always stays, then one entry per new
/// additional track.
pub open spec fn spec_calc_reshape(
    orig: Seq<AdditionalTrackKind>,
    orig_stereo: bool,
    new: Seq<AdditionalTrackKind>,
    new_stereo: bool,
) -> Seq<ReshapeTrackDef> {
    seq![spec_src_ref(0, orig_stereo, new_stereo)] + spec_calc_rest(
        orig,
        orig_stereo,
        new,
        new_stereo,
        0,
        0,
    )
}

/// The reshape plan is a function of its inputs alone: equal inputs give
/// equal plans.
pub proof fn lemma_calc_reshape_deterministic(
    orig: Seq<AdditionalTrackKind>,
    orig_stereo: bool,
    new: Seq<AdditionalTrackKind>,
    new_stereo: bool,
    r1: Seq<ReshapeTrackDef>,
    r2: Seq<ReshapeTrackDef>,
)
    requires
        r1 == spec_calc_reshape(orig, orig_stereo, new, new_stereo),
        r2 == spec_calc_reshape(orig, orig_stereo, new, new_stereo),
    ensures
        r1 == r2,
{
}

/// Build the reshape plan: keep the main track, then serve each requested
/// additional track. A `Normal` request consumes the next unused original
/// `Normal` track, falling back to the main track; an `Additive` request
/// consumes the next unused original `Additive` track, falling back to
/// silence. The input lists describe the tracks past the main one.
pub fn calc_reshape(
    original: &[AdditionalTrackKind],
    original_is_stereo: bool,
    new: &[AdditionalTrackKind],
    new_is_stereo: bool,
) -> (r: Vec<ReshapeTrackDef>)
    requires
        original@.len() <= 126,
    ensures
        r@ == spec_calc_reshape(original@, original_is_stereo, new@, new_is_stereo),
{
    let nn = new.len();
    let no = original.len();
    let mut result: Vec<ReshapeTrackDef> = Vec::new();
    result.push(src_ref(0, original_is_stereo, new_is_stereo));
    proof {
        assert(new@.skip(0) =~= new@);
        assert(result@ =~= seq![spec_src_ref(0, original_is_stereo, new_is_stereo)]);
    }
    let mut npos: usize = 0;
    let mut apos: usize = 0;
    let mut k: usize = 0;
    while k < nn
        invariant
            k <= nn,
            nn == new@.len(),
            no == original@.len(),
            no <= 126,
            npos <= no,
            apos <= no,
            result@ + spec_calc_rest(
                original@,
                original_is_stereo,
                new@.skip(k as int),
                new_is_stereo,
                npos as int,
                apos as int,
            ) == spec_calc_reshape(original@, original_is_stereo, new@, new_is_stereo),
        decreases nn - k,
    {
        let kind = new[k];
        let entry: ReshapeTrackDef = if matches!(kind, AdditionalTrackKind::Normal) {
            match scan_next_kind(original, AdditionalTrackKind::Normal, npos) {
                Some(i) => {
                    npos = i + 1;
                    src_ref(i + 1, original_is_stereo, new_is_stereo)
                },
                None => {
                    npos = no;
                    src_ref(0, original_is_stereo, new_is_stereo)
                },
            }
        } else {
            match scan_next_kind(original, AdditionalTrackKind::Additive, apos) {
                Some(i) => {
                    apos = i + 1;
                    src_ref(i + 1, original_is_stereo, new_is_stereo)
                },
                None => {
                    apos = no;
                    empty_ref(new_is_stereo)
                },
            }
        };
        result.push(entry);
        k = k + 1;
        proof {
            assert(new@.skip(k - 1)[0] == new@[k - 1]);
            assert(new@.skip(k - 1).skip(1) =~= new@.skip(k as int));
            assert(result@ + spec_calc_rest(
                original@,
                original_is_stereo,
                new@.skip(k as int),
                new_is_stereo,
                npos as int,
                apos as int,
            ) =~= spec_calc_reshape(original@, original_is_stereo, new@, new_is_stereo));
        }
    }
    proof {
        assert(new@.skip(nn as int) =~= Seq::<AdditionalTrackKind>::empty());
        assert(result@ =~= spec_calc_reshape(original@, original_is_stereo, new@, new_is_stereo));
    }
    result
}

/// The plan entry routing original track `track_no`.
fn src_ref(track_no: usize, orig_stereo: bool, new_stereo: bool) -> (r: ReshapeTrackDef)
    requires
        track_no <= 127,
    ensures
        r == spec_src_ref(track_no as int, orig_stereo, new_stereo),
{
    if new_stereo {
        if orig_stereo {
            ReshapeTrackDef::Stereo {
                left: ReshapeSrc::Channel((track_no * 2) as u8),
                right: ReshapeSrc::Channel((track_no * 2 + 1) as u8),
            }
        } else {
            ReshapeTrackDef::Stereo {
                left: ReshapeSrc::Channel(track_no as u8),
                right: ReshapeSrc::Channel(track_no as u8),
            }
        }
    } else {
        if orig_stereo {
            ReshapeTrackDef::Mono { channel: ReshapeSrc::Channel((track_no * 2) as u8) }
        } else {
            ReshapeTrackDef::Mono { channel: ReshapeSrc::Channel(track_no as u8) }
        }
    }
}

/// The silent plan entry.
fn empty_ref(new_stereo: bool) -> (r: ReshapeTrackDef)
    ensures
        r == spec_empty_ref(new_stereo),
{
    if new_stereo {
        ReshapeTrackDef::Stereo { left: ReshapeSrc::Empty, right: ReshapeSrc::Empty }
    } else {
        ReshapeTrackDef::Mono { channel: ReshapeSrc::Empty }
    }
}

/// Scan forward from `from` for the next entry of `kind`.
pub(crate) fn scan_next_kind(s: &[AdditionalTrackKind], kind: AdditionalTrackKind, from: usize) -> (r: Option<
    usize,
>)
    requires
        from <= s@.len(),
    ensures
        match r {
            Some(i) => Some(i as int) == spec_next_of_kind(s@, kind, from as int) && i < s@.len(),
            None => spec_next_of_kind(s@, kind, from as int) is None,
        },
{
    let n = s.len();
    let mut i = from;
    while i < n
        invariant
            from <= i <= n,
            n == s@.len(),
            spec_next_of_kind(s@, kind, from as int) == spec_next_of_kind(s@, kind, i as int),
        decreases n - i,
    {
        if s[i] == kind {
            return Some(i);
        }
        i = i + 1;
    }
    None
}

/// The channel sources of one plan entry, left before right.
pub open spec fn spec_entry_srcs(e: ReshapeTrackDef) -> Seq<ReshapeSrc> {
    match e {
        ReshapeTrackDef::Stereo { left, right } => seq![left, right],
        ReshapeTrackDef::Mono { channel } => seq![channel],
    }
}

/// The flattened channel sources of a plan, in output-channel order.
pub open spec fn spec_plan_srcs(plan: Seq<ReshapeTrackDef>) -> Seq<ReshapeSrc>
    decreases plan.len(),
{
    if plan.len() == 0 {
        Seq::empty()
    } else {
        spec_plan_srcs(plan.drop_last()) + spec_entry_srcs(plan.last())
    }
}

/// A prefix of the plan never flattens to more channels than the whole.
pub proof fn lemma_plan_srcs_prefix_len(plan: Seq<ReshapeTrackDef>, k: int)
    requires
        0 <= k <= plan.len(),
    ensures
        spec_plan_srcs(plan.subrange(0, k)).len() <= spec_plan_srcs(plan).len(),
    decreases plan.len(),
{
    if k == plan.len() {
        assert(plan.subrange(0, k) =~= plan);
    } else {
        assert(plan.drop_last().subrange(0, k) =~= plan.subrange(0, k));
        lemma_plan_srcs_prefix_len(plan.drop_last(), k);
    }
}

/// Whether a source is resolvable against `nchan` channels.
pub open spec fn spec_src_ok(src: ReshapeSrc, nchan: int) -> bool {
    match src {
        ReshapeSrc::Channel(c) => c < nchan,
        ReshapeSrc::Empty => true,
    }
}

/// Whether every source of the plan is resolvable.
pub open spec fn spec_plan_ok(plan: Seq<ReshapeTrackDef>, nchan: int) -> bool {
    forall|k: int|
        0 <= k < plan.len() ==> match #[trigger] plan[k] {
            ReshapeTrackDef::Stereo { left, right } => spec_src_ok(left, nchan) && spec_src_ok(
                right,
                nchan,
            ),
            ReshapeTrackDef::Mono { channel } => spec_src_ok(channel, nchan),
        }
}

/// When every plan entry resolves, so does every flattened source.
pub proof fn lemma_plan_srcs_ok(plan: Seq<ReshapeTrackDef>, nchan: int)
    requires
        spec_plan_ok(plan, nchan),
    ensures
        forall|j: int|
            0 <= j < spec_plan_srcs(plan).len() ==> spec_src_ok(
                #[trigger] spec_plan_srcs(plan)[j],
                nchan,
            ),
    decreases plan.len(),
{
    if plan.len() > 0 {
        assert(spec_plan_ok(plan.drop_last(), nchan)) by {
            assert(forall|k: int|
                0 <= k < plan.len() - 1 ==> plan.drop_last()[k] == #[trigger] plan[k]);
        }
        lemma_plan_srcs_ok(plan.drop_last(), nchan);
        assert(match plan.last() {
            ReshapeTrackDef::Stereo { left, right } => spec_src_ok(left, nchan) && spec_src_ok(
                right,
                nchan,
            ),
            ReshapeTrackDef::Mono { channel } => spec_src_ok(channel, nchan),
        });
        let dl = spec_plan_srcs(plan.drop_last());
        let es = spec_entry_srcs(plan.last());
        assert forall|j: int| 0 <= j < spec_plan_srcs(plan).len() implies spec_src_ok(
            #[trigger] spec_plan_srcs(plan)[j],
            nchan,
        ) by {
            if j < dl.len() {
                assert(spec_plan_srcs(plan)[j] == dl[j]);
            } else {
                assert(spec_plan_srcs(plan)[j] == es[j - dl.len()]);
                match plan.last() {
                    ReshapeTrackDef::Stereo { left, right } => {
                        assert(es == seq![left, right]);
                    },
                    ReshapeTrackDef::Mono { channel } => {
                        assert(es == seq![channel]);
                    },
                }
            }
        }
    }
}

/// The volume/panning extension carried over for a source: the one of the
/// first original track that plays the source channel.
pub open spec fn spec_src_v1(tracks: Seq<TrackDescription>, c: u8) -> Option<TrackDescriptionV1>
    decreases tracks.len(),
{
    if tracks.len() == 0 {
        None
    } else if tracks[0].channels.spec_includes_channel(c) {
        tracks[0].info_v1
    } else {
        spec_src_v1(tracks.skip(1), c)
    }
}

pub open spec fn spec_src_v1_of(tracks: Seq<TrackDescription>, src: ReshapeSrc) -> Option<
    TrackDescriptionV1,
> {
    match src {
        ReshapeSrc::Channel(c) => spec_src_v1(tracks, c),
        ReshapeSrc::Empty => None,
    }
}

/// The track list of the reshaped container: output channel indices are
/// assigned densely in plan order.
pub open spec fn spec_new_tracks(
    plan: Seq<ReshapeTrackDef>,
    old_tracks: Seq<TrackDescription>,
) -> Seq<TrackDescription> {
    Seq::new(
        plan.len(),
        |k: int|
            {
                let base = spec_plan_srcs(plan.subrange(0, k)).len() as int;
                match plan[k] {
                    ReshapeTrackDef::Stereo { left, right } => TrackDescription {
                        info_v1: spec_src_v1_of(old_tracks, left),
                        channels: Channels::Stereo(base as u8, (base + 1) as u8),
                    },
                    ReshapeTrackDef::Mono { channel } => TrackDescription {
                        info_v1: spec_src_v1_of(old_tracks, channel),
                        channels: Channels::Mono(base as u8),
                    },
                }
            },
    )
}

/// The all-zero channel information a silent channel inherits.
pub open spec fn spec_default_chan() -> AdpcmChannelInformation {
    AdpcmChannelInformation {
        channel_adpcm_coefficients_offset: 0,
        adpcm_coefficients: [
            0i16,
            0i16,
            0i16,
            0i16,
            0i16,
            0i16,
            0i16,
            0i16,
            0i16,
            0i16,
            0i16,
            0i16,
            0i16,
            0i16,
            0i16,
            0i16,
        ],
        gain: 0,
        initial_predictor: 0,
        history_sample1: 0,
        history_sample2: 0,
        loop_predictor: 0,
        loop_history_sample1: 0,
        loop_history_sample2: 0,
    }
}

/// The channel information list of the reshaped container.
pub open spec fn spec_new_channels(
    srcs: Seq<ReshapeSrc>,
    old_channels: Seq<AdpcmChannelInformation>,
) -> Seq<AdpcmChannelInformation> {
    Seq::new(
        srcs.len(),
        |j: int|
            match srcs[j] {
                ReshapeSrc::Channel(c) => old_channels[c as int],
                ReshapeSrc::Empty => spec_default_chan(),
            },
    )
}

/// The seek-table bytes of one output channel for one block: the original
/// entry, or four zero bytes for silence.
pub open spec fn spec_adpc_slot(adpc: Seq<u8>, h: crate::structs::Head1, src: ReshapeSrc, b: int) -> Seq<u8> {
    match src {
        ReshapeSrc::Channel(c) => adpc.subrange(
            spec_adpc_entry_offset(h, c as int, b),
            spec_adpc_entry_offset(h, c as int, b) + 4,
        ),
        ReshapeSrc::Empty => zeros(4),
    }
}

/// One block row of the reshaped seek table.
pub open spec fn spec_adpc_row(
    adpc: Seq<u8>,
    h: crate::structs::Head1,
    srcs: Seq<ReshapeSrc>,
    b: int,
) -> Seq<u8>
    decreases srcs.len(),
{
    if srcs.len() == 0 {
        Seq::empty()
    } else {
        spec_adpc_row(adpc, h, srcs.drop_last(), b) + spec_adpc_slot(adpc, h, srcs.last(), b)
    }
}

/// The reshaped seek table: one row per block.
pub open spec fn spec_new_adpc(
    adpc: Seq<u8>,
    h: crate::structs::Head1,
    srcs: Seq<ReshapeSrc>,
    nblocks: int,
) -> Seq<u8>
    decreases nblocks,
{
    if nblocks <= 0 {
        Seq::empty()
    } else {
        spec_new_adpc(adpc, h, srcs, nblocks - 1) + spec_adpc_row(adpc, h, srcs, nblocks - 1)
    }
}

/// The DATA bytes of one output channel for one block: the original block,
/// or that many zero bytes for silence.
pub open spec fn spec_data_slot(data: Seq<u8>, h: crate::structs::Head1, src: ReshapeSrc, b: int) -> Seq<u8> {
    match src {
        ReshapeSrc::Channel(c) => data.subrange(
            spec_block_offset(h, c as int, b),
            spec_block_offset(h, c as int, b) + spec_block_size(h, b),
        ),
        ReshapeSrc::Empty => zeros(spec_block_size(h, b)),
    }
}

/// One block row of the reshaped DATA payload.
pub open spec fn spec_data_row(
    data: Seq<u8>,
    h: crate::structs::Head1,
    srcs: Seq<ReshapeSrc>,
    b: int,
) -> Seq<u8>
    decreases srcs.len(),
{
    if srcs.len() == 0 {
        Seq::empty()
    } else {
        spec_data_row(data, h, srcs.drop_last(), b) + spec_data_slot(data, h, srcs.last(), b)
    }
}

/// The reshaped DATA payload: one row per block.
pub open spec fn spec_new_data(
    data: Seq<u8>,
    h: crate::structs::Head1,
    srcs: Seq<ReshapeSrc>,
    nblocks: int,
) -> Seq<u8>
    decreases nblocks,
{
    if nblocks <= 0 {
        Seq::empty()
    } else {
        spec_new_data(data, h, srcs, nblocks - 1) + spec_data_row(data, h, srcs, nblocks - 1)
    }
}

/// The conditions under which the reshaped payload's geometry is exact:
/// every source resolves and the original payload covers its layout.
pub open spec fn spec_reshape_geometry_ok(
    data: Seq<u8>,
    h: crate::structs::Head1,
    srcs: Seq<ReshapeSrc>,
) -> bool {
    &&& h.total_blocks >= 1
    &&& crate::brstm::spec_data_layout_len(h) <= data.len()
    &&& forall|j: int| 0 <= j < srcs.len() ==> spec_src_ok(#[trigger] srcs[j], h.num_channels as int)
}

/// Every slot of a reshaped row is exactly one block long.
pub proof fn lemma_data_row_len(
    data: Seq<u8>,
    h: crate::structs::Head1,
    srcs: Seq<ReshapeSrc>,
    b: int,
)
    requires
        spec_reshape_geometry_ok(data, h, srcs),
        0 <= b < h.total_blocks,
    ensures
        spec_data_row(data, h, srcs, b).len() == srcs.len() * spec_block_size(h, b),
    decreases srcs.len(),
{
    if srcs.len() > 0 {
        assert(spec_reshape_geometry_ok(data, h, srcs.drop_last())) by {
            assert(forall|j: int|
                0 <= j < srcs.len() - 1 ==> srcs.drop_last()[j] == #[trigger] srcs[j]);
        }
        lemma_data_row_len(data, h, srcs.drop_last(), b);
        match srcs.last() {
            ReshapeSrc::Channel(c) => {
                crate::brstm::lemma_block_in_range(h, c as int, b);
            },
            ReshapeSrc::Empty => {},
        }
        assert((srcs.len() - 1) * spec_block_size(h, b) + spec_block_size(h, b) == srcs.len()
            * spec_block_size(h, b)) by (nonlinear_arith);
    } else {
        assert(0 * spec_block_size(h, b) == 0) by (nonlinear_arith);
    }
}

/// The reshaped payload up to block `nb` is `nb` full rows long while every
/// row holds regular blocks.
pub proof fn lemma_new_data_len(
    data: Seq<u8>,
    h: crate::structs::Head1,
    srcs: Seq<ReshapeSrc>,
    nb: int,
)
    requires
        spec_reshape_geometry_ok(data, h, srcs),
        0 <= nb <= h.total_blocks - 1,
    ensures
        spec_new_data(data, h, srcs, nb).len() == nb * srcs.len() * h.blocks_size,
    decreases nb,
{
    if nb > 0 {
        lemma_new_data_len(data, h, srcs, nb - 1);
        lemma_data_row_len(data, h, srcs, nb - 1);
        assert((nb - 1) * srcs.len() * h.blocks_size + srcs.len() * h.blocks_size == nb
            * srcs.len() * h.blocks_size) by (nonlinear_arith);
    } else {
        assert(0 * srcs.len() * h.blocks_size == 0) by (nonlinear_arith);
    }
}

/// Slot `j` of a reshaped row holds exactly its source's bytes.
pub proof fn lemma_data_row_slot(
    data: Seq<u8>,
    h: crate::structs::Head1,
    srcs: Seq<ReshapeSrc>,
    b: int,
    j: int,
)
    requires
        spec_reshape_geometry_ok(data, h, srcs),
        0 <= b < h.total_blocks,
        0 <= j < srcs.len(),
    ensures
        spec_data_row(data, h, srcs, b).subrange(
            j * spec_block_size(h, b),
            (j + 1) * spec_block_size(h, b),
        ) == spec_data_slot(data, h, srcs[j], b),
    decreases srcs.len(),
{
    lemma_data_row_len(data, h, srcs, b);
    let sz = spec_block_size(h, b);
    assert(j * sz >= 0 && (j + 1) * sz == j * sz + sz) by (nonlinear_arith)
        requires
            j >= 0,
            sz >= 0,
    ;
    if j == srcs.len() - 1 {
        assert(spec_reshape_geometry_ok(data, h, srcs.drop_last())) by {
            assert(forall|k: int|
                0 <= k < srcs.len() - 1 ==> srcs.drop_last()[k] == #[trigger] srcs[k]);
        }
        lemma_data_row_len(data, h, srcs.drop_last(), b);
        assert(spec_data_row(data, h, srcs, b).subrange(j * sz, (j + 1) * sz) =~= spec_data_slot(
            data,
            h,
            srcs[j],
            b,
        ));
    } else {
        assert(spec_reshape_geometry_ok(data, h, srcs.drop_last())) by {
            assert(forall|k: int|
                0 <= k < srcs.len() - 1 ==> srcs.drop_last()[k] == #[trigger] srcs[k]);
        }
        lemma_data_row_len(data, h, srcs.drop_last(), b);
        lemma_data_row_slot(data, h, srcs.drop_last(), b, j);
        assert((j + 1) * sz <= (srcs.len() - 1) * sz) by (nonlinear_arith)
            requires
                j + 1 <= srcs.len() - 1,
                sz >= 0,
        ;
        assert(spec_data_row(data, h, srcs, b).subrange(j * sz, (j + 1) * sz) =~= spec_data_row(
            data,
            h,
            srcs.drop_last(),
            b,
        ).subrange(j * sz, (j + 1) * sz));
    }
}

/// The reshaped payload holds block row `b` right behind the first `b`
/// rows.
proof fn lemma_reshaped_suffix(
    data: Seq<u8>,
    h: crate::structs::Head1,
    srcs: Seq<ReshapeSrc>,
    nb: int,
    b: int,
)
    requires
        spec_reshape_geometry_ok(data, h, srcs),
        0 <= b < nb <= h.total_blocks,
    ensures
        spec_new_data(data, h, srcs, b).len() + spec_data_row(data, h, srcs, b).len()
            <= spec_new_data(data, h, srcs, nb).len(),
        spec_new_data(data, h, srcs, nb).subrange(
            spec_new_data(data, h, srcs, b).len() as int,
            spec_new_data(data, h, srcs, b).len() as int + spec_data_row(data, h, srcs, b).len(),
        ) == spec_data_row(data, h, srcs, b),
    decreases nb - b,
{
    let before = spec_new_data(data, h, srcs, b);
    let row = spec_data_row(data, h, srcs, b);
    let whole = spec_new_data(data, h, srcs, nb);
    if b == nb - 1 {
        assert forall|k: int| 0 <= k < row.len() implies #[trigger] whole.subrange(
            before.len() as int,
            before.len() as int + row.len(),
        )[k] == row[k] by {
            assert(whole[before.len() + k] == row[k]);
        }
        assert(whole.subrange(before.len() as int, before.len() as int + row.len()) =~= row);
    } else {
        lemma_reshaped_suffix(data, h, srcs, nb - 1, b);
        let pre = spec_new_data(data, h, srcs, nb - 1);
        assert forall|k: int| 0 <= k < row.len() implies #[trigger] whole.subrange(
            before.len() as int,
            before.len() as int + row.len(),
        )[k] == row[k] by {
            assert(pre.subrange(before.len() as int, before.len() as int + row.len())[k] == pre[
                before.len() + k
            ]);
            assert(whole[before.len() + k] == pre[before.len() + k]);
        }
        assert(whole.subrange(before.len() as int, before.len() as int + row.len()) =~= row);
    }
}

/// Block addressing of the reshaped payload: output slot `j` of block `b`
/// lies at the block offset the new channel count gives it, and holds its
/// source channel's block bytes unchanged — or all zeroes for a silent
/// source.
pub proof fn lemma_reshaped_block(
    data: Seq<u8>,
    h: crate::structs::Head1,
    srcs: Seq<ReshapeSrc>,
    b: int,
    j: int,
)
    requires
        spec_reshape_geometry_ok(data, h, srcs),
        0 <= j < srcs.len(),
        0 <= b < h.total_blocks,
    ensures
        ({
            let pos = b * srcs.len() * h.blocks_size + j * spec_block_size(h, b);
            spec_new_data(data, h, srcs, h.total_blocks as int).subrange(
                pos,
                pos + spec_block_size(h, b),
            ) == spec_data_slot(data, h, srcs[j], b)
        }),
{
    let nb = h.total_blocks as int;
    let sz = spec_block_size(h, b);
    lemma_new_data_len(data, h, srcs, b);
    lemma_data_row_len(data, h, srcs, b);
    lemma_data_row_slot(data, h, srcs, b, j);
    lemma_reshaped_suffix(data, h, srcs, nb, b);
    let whole = spec_new_data(data, h, srcs, nb);
    let row = spec_data_row(data, h, srcs, b);
    let n = srcs.len() as int;
    let bs = h.blocks_size as int;
    let start = b * srcs.len() * h.blocks_size;
    assert(b * n * bs >= 0) by (nonlinear_arith)
        requires
            b >= 0,
            n >= 0,
            bs >= 0,
    ;
    assert(start == b * n * bs);
    assert(0 <= j * sz && j * sz + sz == (j + 1) * sz && (j + 1) * sz <= srcs.len() * sz)
        by (nonlinear_arith)
        requires
            0 <= j,
            j + 1 <= srcs.len(),
            sz >= 0,
    ;
    crate::bytes::lemma_sub_sub(whole, start, row, j * sz, (j + 1) * sz);
}

/// Two output slots fed from the same source hold identical bytes in every
/// block of the reshaped payload: duplicating a channel duplicates its
/// data.
pub proof fn lemma_reshaped_equal_sources(
    data: Seq<u8>,
    h: crate::structs::Head1,
    srcs: Seq<ReshapeSrc>,
    b: int,
    i: int,
    j: int,
)
    requires
        spec_reshape_geometry_ok(data, h, srcs),
        0 <= i < srcs.len(),
        0 <= j < srcs.len(),
        0 <= b < h.total_blocks,
        srcs[i] == srcs[j],
    ensures
        spec_new_data(data, h, srcs, h.total_blocks as int).subrange(
            b * srcs.len() * h.blocks_size + i * spec_block_size(h, b),
            b * srcs.len() * h.blocks_size + i * spec_block_size(h, b) + spec_block_size(h, b),
        ) == spec_new_data(data, h, srcs, h.total_blocks as int).subrange(
            b * srcs.len() * h.blocks_size + j * spec_block_size(h, b),
            b * srcs.len() * h.blocks_size + j * spec_block_size(h, b) + spec_block_size(h, b),
        ),
{
    lemma_reshaped_block(data, h, srcs, b, i);
    lemma_reshaped_block(data, h, srcs, b, j);
}

/// Rearrange the container to the plan's layout: rebuild the track and
/// channel lists, and copy the seek table and DATA payload block by block,
/// channel source by channel source, with zeroes for silent channels. On an
/// unresolvable source the container is left untouched. Every non-silent
/// output channel's bytes equal its source channel's bytes for every block.
#[verifier::rlimit(100)]
#[verifier::spinoff_prover]
pub fn reshape(brstm: &mut BrstmInfoWithData, track_reshape: &[ReshapeTrackDef]) -> (r: Result<
    (),
    ReshapeError,
>)
    requires
        old(brstm).wf_adpc(),
        old(brstm).wf_data(),
        old(brstm).info.channels@.len() == old(brstm).info.info.num_channels,
        spec_plan_srcs(track_reshape@).len() <= 255,
    ensures
        r is Ok <==> spec_plan_ok(track_reshape@, old(brstm).info.channels@.len() as int),
        r matches Err(e) ==> e == ReshapeError::ChannelNotExistent && *final(brstm) == *old(brstm),
        r is Ok ==> ({
            let srcs = spec_plan_srcs(track_reshape@);
            let h = old(brstm).info.info;
            &&& final(brstm).info.info == (crate::structs::Head1 {
                num_channels: srcs.len() as u8,
                ..h
            })
            &&& final(brstm).info.tracks@ == spec_new_tracks(
                track_reshape@,
                old(brstm).info.tracks@,
            )
            &&& final(brstm).info.channels@ == spec_new_channels(srcs, old(brstm).info.channels@)
            &&& final(brstm).adpcm_bytes@ == spec_new_adpc(
                old(brstm).adpcm_bytes@,
                h,
                srcs,
                h.total_blocks as int,
            )
            &&& final(brstm).data_bytes@ == spec_new_data(
                old(brstm).data_bytes@,
                h,
                srcs,
                h.total_blocks as int,
            )
            &&& final(brstm).info.adpcm_offset == old(brstm).info.adpcm_offset
            &&& final(brstm).info.adpcm_size == old(brstm).info.adpcm_size
            &&& final(brstm).info.data_offset == old(brstm).info.data_offset
            &&& final(brstm).info.data_size == old(brstm).info.data_size
        }),
{
    let ghost plan = track_reshape@;
    let ghost old_tracks = old(brstm).info.tracks@;
    let ghost old_channels = old(brstm).info.channels@;
    let np = track_reshape.len();
    let nchan = brstm.info.channels.len();

    let mut channel_reshape: Vec<ReshapeSrc> = Vec::new();
    let mut new_tracks: Vec<TrackDescription> = Vec::new();
    let mut new_channels: Vec<AdpcmChannelInformation> = Vec::new();
    let mut k: usize = 0;
    while k < np
        invariant
            k <= np,
            np == plan.len(),
            *brstm == *old(brstm),
            plan == track_reshape@,
            nchan == old_channels.len(),
            old_tracks == old(brstm).info.tracks@,
            old_channels == old(brstm).info.channels@,
            spec_plan_srcs(plan).len() <= 255,
            channel_reshape@ == spec_plan_srcs(plan.subrange(0, k as int)),
            new_tracks@.len() == k,
            forall|j: int| 0 <= j < k ==> new_tracks@[j] == spec_new_tracks(plan, old_tracks)[j],
            new_channels@.len() == channel_reshape@.len(),
            forall|j: int|
                0 <= j < new_channels@.len() ==> new_channels@[j] == match channel_reshape@[j] {
                    ReshapeSrc::Channel(c) => old_channels[c as int],
                    ReshapeSrc::Empty => spec_default_chan(),
                },
            forall|j: int|
                0 <= j < k ==> match #[trigger] plan[j] {
                    ReshapeTrackDef::Stereo { left, right } => spec_src_ok(left, nchan as int)
                        && spec_src_ok(right, nchan as int),
                    ReshapeTrackDef::Mono { channel } => spec_src_ok(channel, nchan as int),
                },
        decreases np - k,
    {
        proof {
            lemma_plan_srcs_prefix_len(plan, k as int);
        }
        let cur: usize = channel_reshape.len();
        let entry = &track_reshape[k];
        match entry {
            ReshapeTrackDef::Stereo { left, right } => {
                let v1 = get_info_v1(&brstm.info.tracks, *left);
                let cl = match get_new_channel(&brstm.info.channels, *left) {
                    Ok(c) => c,
                    Err(e) => {
                        return Err(e);
                    },
                };
                let cr = match get_new_channel(&brstm.info.channels, *right) {
                    Ok(c) => c,
                    Err(e) => {
                        return Err(e);
                    },
                };
                channel_reshape.push(*left);
                channel_reshape.push(*right);
                new_tracks.push(
                    TrackDescription {
                        info_v1: v1,
                        channels: Channels::Stereo(cur as u8, (cur + 1) as u8),
                    },
                );
                new_channels.push(cl);
                new_channels.push(cr);
            },
            ReshapeTrackDef::Mono { channel } => {
                let v1 = get_info_v1(&brstm.info.tracks, *channel);
                let cc = match get_new_channel(&brstm.info.channels, *channel) {
                    Ok(c) => c,
                    Err(e) => {
                        return Err(e);
                    },
                };
                channel_reshape.push(*channel);
                new_tracks.push(
                    TrackDescription { info_v1: v1, channels: Channels::Mono(cur as u8) },
                );
                new_channels.push(cc);
            },
        }
        k = k + 1;
        proof {
            let pre = plan.subrange(0, k as int);
            assert(pre.drop_last() =~= plan.subrange(0, k - 1));
            assert(channel_reshape@ =~= spec_plan_srcs(pre));
        }
    }
    proof {
        assert(plan.subrange(0, np as int) =~= plan);
    }

    let ghost srcs = spec_plan_srcs(plan);
    proof {
        lemma_plan_srcs_ok(plan, nchan as int);
    }
    let nsrc = channel_reshape.len();
    let h = brstm.info.info;
    let total_blocks = h.total_blocks;
    let mut adpc_bytes: Vec<u8> = Vec::new();
    let mut data_bytes: Vec<u8> = Vec::new();
    let mut b: u32 = 0;
    while b < total_blocks
        invariant
            b <= total_blocks,
            *brstm == *old(brstm),
            h == old(brstm).info.info,
            total_blocks == h.total_blocks,
            nchan == old(brstm).info.channels@.len(),
            nchan == h.num_channels,
            old(brstm).wf_adpc(),
            old(brstm).wf_data(),
            nsrc == srcs.len(),
            channel_reshape@ == srcs,
            forall|j: int| 0 <= j < nsrc ==> spec_src_ok(#[trigger] srcs[j], nchan as int),
            adpc_bytes@ == spec_new_adpc(old(brstm).adpcm_bytes@, h, srcs, b as int),
            data_bytes@ == spec_new_data(old(brstm).data_bytes@, h, srcs, b as int),
        decreases total_blocks - b,
    {
        let mut j: usize = 0;
        let ghost adpc_row_base = adpc_bytes@;
        let ghost data_row_base = data_bytes@;
        while j < nsrc
            invariant
                j <= nsrc,
                b < total_blocks,
                *brstm == *old(brstm),
                h == old(brstm).info.info,
                total_blocks == h.total_blocks,
                nchan == old(brstm).info.channels@.len(),
                nchan == h.num_channels,
                old(brstm).wf_adpc(),
                old(brstm).wf_data(),
                nsrc == srcs.len(),
                channel_reshape@ == srcs,
                forall|jj: int| 0 <= jj < nsrc ==> spec_src_ok(#[trigger] srcs[jj], nchan as int),
                adpc_bytes@ == adpc_row_base + spec_adpc_row(
                    old(brstm).adpcm_bytes@,
                    h,
                    srcs.subrange(0, j as int),
                    b as int,
                ),
                data_bytes@ == data_row_base + spec_data_row(
                    old(brstm).data_bytes@,
                    h,
                    srcs.subrange(0, j as int),
                    b as int,
                ),
            decreases nsrc - j,
        {
            let src = channel_reshape[j];
            match src {
                ReshapeSrc::Empty => {
                    push_zeros(&mut adpc_bytes, 4);
                    let block_size = if b == total_blocks - 1 {
                        brstm.info.info.final_block_size_padded
                    } else {
                        brstm.info.info.blocks_size
                    };
                    push_zeros(&mut data_bytes, block_size as usize);
                },
                ReshapeSrc::Channel(channel_ref) => {
                    let entry = brstm.get_adpc_bytes(channel_ref, b);
                    push_bytes(&mut adpc_bytes, entry.as_slice());
                    let block = brstm.get_data_block(channel_ref, b);
                    push_bytes(&mut data_bytes, block);
                },
            }
            j = j + 1;
            proof {
                let pre = srcs.subrange(0, j as int);
                assert(pre.drop_last() =~= srcs.subrange(0, j - 1));
                assert(adpc_bytes@ =~= adpc_row_base + spec_adpc_row(
                    old(brstm).adpcm_bytes@,
                    h,
                    pre,
                    b as int,
                ));
                assert(data_bytes@ =~= data_row_base + spec_data_row(
                    old(brstm).data_bytes@,
                    h,
                    pre,
                    b as int,
                ));
            }
        }
        b = b + 1;
        proof {
            assert(srcs.subrange(0, nsrc as int) =~= srcs);
        }
    }

    brstm.info.info.num_channels = nsrc as u8;
    brstm.data_bytes = data_bytes;
    brstm.adpcm_bytes = adpc_bytes;
    brstm.info.tracks = new_tracks;
    brstm.info.channels = new_channels;
    proof {
        assert(final(brstm).info.tracks@ =~= spec_new_tracks(plan, old_tracks));
        assert(final(brstm).info.channels@ =~= spec_new_channels(srcs, old_channels));
    }
    Ok(())
}

/// The volume/panning extension of the first track playing the source
/// channel, if any.
fn get_info_v1(tracks: &Vec<TrackDescription>, src: ReshapeSrc) -> (r: Option<TrackDescriptionV1>)
    ensures
        r == spec_src_v1_of(tracks@, src),
{
    match src {
        ReshapeSrc::Channel(channel) => {
            let nt = tracks.len();
            proof {
                assert(tracks@.skip(0) =~= tracks@);
            }
            let mut i: usize = 0;
            while i < nt
                invariant
                    i <= nt,
                    nt == tracks@.len(),
                    src == ReshapeSrc::Channel(channel),
                    spec_src_v1(tracks@, channel) == spec_src_v1(tracks@.skip(i as int), channel),
                decreases nt - i,
            {
                if tracks[i].channels.includes_channel(channel) {
                    proof {
                        assert(tracks@.skip(i as int)[0] == tracks@[i as int]);
                        assert(spec_src_v1(tracks@.skip(i as int), channel) == tracks@[i as int].info_v1);
                        assert(src == ReshapeSrc::Channel(channel));
                        assert(tracks@[i as int].info_v1 == spec_src_v1_of(tracks@, src));
                    }
                    return tracks[i].info_v1;
                }
                proof {
                    assert(tracks@.skip(i as int).skip(1) =~= tracks@.skip(i + 1));
                    assert(tracks@.skip(i as int)[0] == tracks@[i as int]);
                }
                i = i + 1;
            }
            proof {
                assert(tracks@.skip(nt as int) =~= Seq::<TrackDescription>::empty());
            }
            None
        },
        ReshapeSrc::Empty => None,
    }
}

/// The channel information the output inherits from a source: a copy of
/// the original channel's, or the all-zero record for silence.
fn get_new_channel(channels: &Vec<AdpcmChannelInformation>, src: ReshapeSrc) -> (r: Result<
    AdpcmChannelInformation,
    ReshapeError,
>)
    ensures
        r is Ok <==> spec_src_ok(src, channels@.len() as int),
        r matches Ok(c) ==> c == (match src {
            ReshapeSrc::Channel(ch) => channels@[ch as int],
            ReshapeSrc::Empty => spec_default_chan(),
        }),
        r matches Err(e) ==> e == ReshapeError::ChannelNotExistent,
{
    match src {
        ReshapeSrc::Channel(channel) => {
            if (channel as usize) < channels.len() {
                Ok(channels[channel as usize])
            } else {
                Err(ReshapeError::ChannelNotExistent)
            }
        },
        ReshapeSrc::Empty => {
            let r = AdpcmChannelInformation::default();
            proof {
                assert(r.adpcm_coefficients =~= spec_default_chan().adpcm_coefficients);
                assert(r.adpcm_coefficients@ =~= spec_default_chan().adpcm_coefficients@);
            }
            Ok(r)
        },
    }
}

} // verus!
