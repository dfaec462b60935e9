//! The track-level reshape used when patching songs over one another: plans
//! are lists of whole-track references of an all-stereo container, and the
//! usual additional-track layouts are named by number.

use vstd::prelude::*;

use crate::brstm::{BrstmInfoWithData, BrstmInformation};
use crate::bytes::{push_bytes, push_zeros};
use crate::reshaper::{
    spec_adpc_row, spec_data_row, spec_default_chan, spec_new_adpc, spec_new_channels,
    spec_new_data, spec_next_of_kind, AdditionalTrackKind, ReshapeError,
};
use crate::structs::{AdpcmChannelInformation, Channels, TrackDescription};
use crate::ReshapeSrc;

verus! {

/// The additional-track layouts that occur in practice.
#[derive(Debug, Clone, Copy, PartialEq, Eq, Structural)]
pub enum AdditionalTracksType {
    NoAdditional,
    Normal,
    Additive,
    NormalNormal,
    AdditiveAdditive,
    NormalAdditive,
    NormalNormalNormal,
}

impl AdditionalTracksType {
    /// The layout as an explicit list of additional track kinds.
    pub fn as_additional_tracks(&self) -> (r: Vec<AdditionalTrackKind>)
        ensures
            r@ == self.spec_additional_tracks(),
    {
        let mut r: Vec<AdditionalTrackKind> = Vec::new();
        match self {
            Self::NoAdditional => (),
            Self::Normal => {
                r.push(AdditionalTrackKind::Normal);
            },
            Self::Additive => {
                r.push(AdditionalTrackKind::Additive);
            },
            Self::NormalNormal => {
                r.push(AdditionalTrackKind::Normal);
                r.push(AdditionalTrackKind::Normal);
            },
            Self::AdditiveAdditive => {
                r.push(AdditionalTrackKind::Additive);
                r.push(AdditionalTrackKind::Additive);
            },
            Self::NormalAdditive => {
                r.push(AdditionalTrackKind::Normal);
                r.push(AdditionalTrackKind::Additive);
            },
            Self::NormalNormalNormal => {
                r.push(AdditionalTrackKind::Normal);
                r.push(AdditionalTrackKind::Normal);
                r.push(AdditionalTrackKind::Normal);
            },
        }
        proof {
            assert(r@ =~= self.spec_additional_tracks());
        }
        r
    }

    pub open spec fn spec_additional_tracks(&self) -> Seq<AdditionalTrackKind> {
        match self {
            Self::NoAdditional => seq![],
            Self::Normal => seq![AdditionalTrackKind::Normal],
            Self::Additive => seq![AdditionalTrackKind::Additive],
            Self::NormalNormal => seq![AdditionalTrackKind::Normal, AdditionalTrackKind::Normal],
            Self::AdditiveAdditive => seq![
                AdditionalTrackKind::Additive,
                AdditionalTrackKind::Additive,
            ],
            Self::NormalAdditive => seq![
                AdditionalTrackKind::Normal,
                AdditionalTrackKind::Additive,
            ],
            Self::NormalNormalNormal => seq![
                AdditionalTrackKind::Normal,
                AdditionalTrackKind::Normal,
                AdditionalTrackKind::Normal,
            ],
        }
    }

    /// The layout a song-type number names.
    pub fn parse_type_number(typ: usize) -> (r: Self)
        requires
            1 <= typ <= 13,
        ensures
            r == (if typ == 4 {
                Self::Normal
            } else if typ == 5 || typ == 12 {
                Self::Additive
            } else if typ == 6 {
                Self::NormalNormal
            } else if typ == 7 {
                Self::AdditiveAdditive
            } else if typ == 13 {
                Self::NormalAdditive
            } else {
                Self::NoAdditional
            }),
    {
        match typ {
            1 | 2 | 3 | 8 | 9 | 10 | 11 => Self::NoAdditional,
            4 => Self::Normal,
            5 | 12 => Self::Additive,
            6 => Self::NormalNormal,
            7 => Self::AdditiveAdditive,
            13 => Self::NormalAdditive,
            _ => Self::NoAdditional,
        }
    }
}

/// The plan entries for the additional tracks `new`, scanning the
/// original's additional tracks from positions `npos` (normal) and `apos`
/// (additive); entries name whole tracks.
pub open spec fn spec_calc_track_rest(
    orig: Seq<AdditionalTrackKind>,
    new: Seq<AdditionalTrackKind>,
    npos: int,
    apos: int,
) -> Seq<ReshapeSrc>
    decreases new.len(),
{
    if new.len() == 0 {
        Seq::empty()
    } else {
        let (entry, npos2, apos2) = match new[0] {
            AdditionalTrackKind::Normal => {
                match spec_next_of_kind(orig, AdditionalTrackKind::Normal, npos) {
                    Some(i) => (ReshapeSrc::Track((i + 1) as u8), i + 1, apos),
                    None => (ReshapeSrc::Track(0u8), orig.len() as int, apos),
                }
            },
            AdditionalTrackKind::Additive => {
                match spec_next_of_kind(orig, AdditionalTrackKind::Additive, apos) {
                    Some(i) => (ReshapeSrc::Track((i + 1) as u8), npos, i + 1),
                    None => (ReshapeSrc::Empty, npos, orig.len() as int),
                }
            },
        };
        seq![entry] + spec_calc_track_rest(orig, new.skip(1), npos2, apos2)
    }
}

/// The whole track-level plan: the main track always stays.
pub open spec fn spec_calc_track_reshape(
    orig: Seq<AdditionalTrackKind>,
    new: Seq<AdditionalTrackKind>,
) -> Seq<ReshapeSrc> {
    seq![ReshapeSrc::Track(0u8)] + spec_calc_track_rest(orig, new, 0, 0)
}

/// Build a track-level reshape plan: keep the main track, then serve each
/// requested additional track from the original's unused tracks of the same
/// kind, falling back to the main track for `Normal` and to silence for
/// `Additive`.
pub fn calc_reshape(original: &[AdditionalTrackKind], new: &[AdditionalTrackKind]) -> (r: Vec<
    ReshapeSrc,
>)
    requires
        original@.len() <= 254,
    ensures
        r@ == spec_calc_track_reshape(original@, new@),
{
    let nn = new.len();
    let no = original.len();
    let mut result: Vec<ReshapeSrc> = Vec::new();
    result.push(ReshapeSrc::Track(0));
    proof {
        assert(new@.skip(0) =~= new@);
        assert(result@ =~= seq![ReshapeSrc::Track(0u8)]);
    }
    let mut npos: usize = 0;
    let mut apos: usize = 0;
    let mut k: usize = 0;
    while k < nn
        invariant
            k <= nn,
            nn == new@.len(),
            no == original@.len(),
            no <= 254,
            npos <= no,
            apos <= no,
            result@ + spec_calc_track_rest(original@, new@.skip(k as int), npos as int, apos as int)
                == spec_calc_track_reshape(original@, new@),
        decreases nn - k,
    {
        let kind = new[k];
        let entry: ReshapeSrc = if matches!(kind, AdditionalTrackKind::Normal) {
            match crate::reshaper::scan_next_kind(original, AdditionalTrackKind::Normal, npos) {
                Some(i) => {
                    npos = i + 1;
                    ReshapeSrc::Track((i + 1) as u8)
                },
                None => {
                    npos = no;
                    ReshapeSrc::Track(0)
                },
            }
        } else {
            match crate::reshaper::scan_next_kind(original, AdditionalTrackKind::Additive, apos) {
                Some(i) => {
                    apos = i + 1;
                    ReshapeSrc::Track((i + 1) as u8)
                },
                None => {
                    apos = no;
                    ReshapeSrc::Empty
                },
            }
        };
        result.push(entry);
        k = k + 1;
        proof {
            assert(new@.skip(k - 1)[0] == new@[k - 1]);
            assert(new@.skip(k - 1).skip(1) =~= new@.skip(k as int));
            assert(result@ + spec_calc_track_rest(
                original@,
                new@.skip(k as int),
                npos as int,
                apos as int,
            ) =~= spec_calc_track_reshape(original@, new@));
        }
    }
    proof {
        assert(new@.skip(nn as int) =~= Seq::<AdditionalTrackKind>::empty());
        assert(result@ =~= spec_calc_track_reshape(original@, new@));
    }
    result
}

/// Whether every track of the container is stereo.
pub open spec fn spec_all_stereo(tracks: Seq<TrackDescription>) -> bool {
    forall|k: int| 0 <= k < tracks.len() ==> (#[trigger] tracks[k]).channels is Stereo
}

/// Whether every plan entry names an existing track whose two channels
/// exist.
pub open spec fn spec_track_plan_ok(
    plan: Seq<ReshapeSrc>,
    tracks: Seq<TrackDescription>,
    nchan: int,
) -> bool {
    forall|k: int|
        0 <= k < plan.len() ==> match #[trigger] plan[k] {
            ReshapeSrc::Track(t) => t < tracks.len() && tracks[t as int].channels.spec_left()
                < nchan && tracks[t as int].channels.spec_right() < nchan,
            ReshapeSrc::Empty => true,
        }
}

/// The flattened channel sources of a track-level plan: each referenced
/// track contributes its left and right channel, each silent entry two
/// silent channels.
pub open spec fn spec_track_srcs(plan: Seq<ReshapeSrc>, tracks: Seq<TrackDescription>) -> Seq<
    crate::reshaper::ReshapeSrc,
>
    decreases plan.len(),
{
    if plan.len() == 0 {
        Seq::empty()
    } else {
        spec_track_srcs(plan.drop_last(), tracks) + (match plan.last() {
            ReshapeSrc::Track(t) => seq![
                crate::reshaper::ReshapeSrc::Channel(tracks[t as int].channels.spec_left()),
                crate::reshaper::ReshapeSrc::Channel(tracks[t as int].channels.spec_right()),
            ],
            ReshapeSrc::Empty => seq![
                crate::reshaper::ReshapeSrc::Empty,
                crate::reshaper::ReshapeSrc::Empty,
            ],
        })
    }
}

pub proof fn lemma_track_srcs_len(plan: Seq<ReshapeSrc>, tracks: Seq<TrackDescription>)
    ensures
        spec_track_srcs(plan, tracks).len() == 2 * plan.len(),
    decreases plan.len(),
{
    if plan.len() > 0 {
        lemma_track_srcs_len(plan.drop_last(), tracks);
    }
}

/// When every plan entry resolves, so does every flattened source.
pub proof fn lemma_track_srcs_ok(
    plan: Seq<ReshapeSrc>,
    tracks: Seq<TrackDescription>,
    nchan: int,
)
    requires
        spec_track_plan_ok(plan, tracks, nchan),
    ensures
        forall|j: int|
            0 <= j < spec_track_srcs(plan, tracks).len() ==> crate::reshaper::spec_src_ok(
                #[trigger] spec_track_srcs(plan, tracks)[j],
                nchan,
            ),
    decreases plan.len(),
{
    if plan.len() > 0 {
        assert(spec_track_plan_ok(plan.drop_last(), tracks, nchan)) by {
            assert(forall|k: int|
                0 <= k < plan.len() - 1 ==> plan.drop_last()[k] == #[trigger] plan[k]);
        }
        lemma_track_srcs_ok(plan.drop_last(), tracks, nchan);
        let dl = spec_track_srcs(plan.drop_last(), tracks);
        let whole = spec_track_srcs(plan, tracks);
        assert(match plan.last() {
            ReshapeSrc::Track(t) => t < tracks.len() && tracks[t as int].channels.spec_left()
                < nchan && tracks[t as int].channels.spec_right() < nchan,
            ReshapeSrc::Empty => true,
        });
        assert forall|j: int| 0 <= j < whole.len() implies crate::reshaper::spec_src_ok(
            #[trigger] whole[j],
            nchan,
        ) by {
            if j < dl.len() {
                assert(whole[j] == dl[j]);
            } else {
                match plan.last() {
                    ReshapeSrc::Track(t) => {
                        assert(whole[j] == seq![
                            crate::reshaper::ReshapeSrc::Channel(
                                tracks[t as int].channels.spec_left(),
                            ),
                            crate::reshaper::ReshapeSrc::Channel(
                                tracks[t as int].channels.spec_right(),
                            ),
                        ][j - dl.len()]);
                    },
                    ReshapeSrc::Empty => {
                        assert(whole[j] == seq![
                            crate::reshaper::ReshapeSrc::Empty,
                            crate::reshaper::ReshapeSrc::Empty,
                        ][j - dl.len()]);
                    },
                }
            }
        }
    }
}

/// The track list of the reshaped container: stereo pairs over densely
/// assigned output channels, each keeping its source track's extension.
pub open spec fn spec_track_new_tracks(
    plan: Seq<ReshapeSrc>,
    tracks: Seq<TrackDescription>,
) -> Seq<TrackDescription> {
    Seq::new(
        plan.len(),
        |k: int|
            TrackDescription {
                info_v1: match plan[k] {
                    ReshapeSrc::Track(t) => tracks[t as int].info_v1,
                    ReshapeSrc::Empty => None,
                },
                channels: Channels::Stereo((2 * k) as u8, (2 * k + 1) as u8),
            },
    )
}

/// Reshape an all-stereo container by whole-track references: every output
/// track copies its source track's two channels (or silence) block by
/// block, as the channel-level reshape does.
#[verifier::rlimit(100)]
#[verifier::spinoff_prover]
pub fn reshape(brstm: &mut BrstmInfoWithData, track_reshape: &Vec<ReshapeSrc>) -> (r: Result<
    (),
    ReshapeError,
>)
    requires
        old(brstm).wf_adpc(),
        old(brstm).wf_data(),
        old(brstm).info.channels@.len() == old(brstm).info.info.num_channels,
        track_reshape@.len() <= 127,
    ensures
        r is Ok <==> spec_all_stereo(old(brstm).info.tracks@) && spec_track_plan_ok(
            track_reshape@,
            old(brstm).info.tracks@,
            old(brstm).info.channels@.len() as int,
        ),
        r is Err ==> *final(brstm) == *old(brstm),
        r == Err::<(), ReshapeError>(ReshapeError::NotStereo) <==> !spec_all_stereo(
            old(brstm).info.tracks@,
        ),
        r is Ok ==> ({
            let srcs = spec_track_srcs(track_reshape@, old(brstm).info.tracks@);
            let h = old(brstm).info.info;
            &&& final(brstm).info.info == (crate::structs::Head1 {
                num_channels: srcs.len() as u8,
                ..h
            })
            &&& final(brstm).info.tracks@ == spec_track_new_tracks(
                track_reshape@,
                old(brstm).info.tracks@,
            )
            &&& final(brstm).info.channels@ == spec_new_channels(srcs, old(brstm).info.channels@)
            &&& final(brstm).adpcm_bytes@ == spec_new_adpc(
                old(brstm).adpcm_bytes@,
                h,
                srcs,
                h.total_blocks as int,
            )
            &&& final(brstm).data_bytes@ == spec_new_data(
                old(brstm).data_bytes@,
                h,
                srcs,
                h.total_blocks as int,
            )
            &&& final(brstm).info.adpcm_offset == old(brstm).info.adpcm_offset
            &&& final(brstm).info.adpcm_size == old(brstm).info.adpcm_size
            &&& final(brstm).info.data_offset == old(brstm).info.data_offset
            &&& final(brstm).info.data_size == old(brstm).info.data_size
        }),
{
    let ghost plan = track_reshape@;
    let ghost old_tracks = old(brstm).info.tracks@;
    let ghost old_channels = old(brstm).info.channels@;
    let nt = brstm.info.tracks.len();
    let nchan = brstm.info.channels.len();

    let mut ti: usize = 0;
    while ti < nt
        invariant
            ti <= nt,
            nt == old_tracks.len(),
            *brstm == *old(brstm),
            old_tracks == old(brstm).info.tracks@,
            forall|k: int| 0 <= k < ti ==> (#[trigger] old_tracks[k]).channels is Stereo,
        decreases nt - ti,
    {
        if brstm.info.tracks[ti].channels.channels() != 2 {
            proof {
                assert(!(old_tracks[ti as int].channels is Stereo));
            }
            return Err(ReshapeError::NotStereo);
        }
        proof {
            assert(old_tracks[ti as int].channels is Stereo);
        }
        ti = ti + 1;
    }

    let np = track_reshape.len();
    let mut channel_reshape: Vec<crate::reshaper::ReshapeSrc> = Vec::new();
    let mut new_tracks: Vec<TrackDescription> = Vec::new();
    let mut new_channels: Vec<AdpcmChannelInformation> = Vec::new();
    let mut k: usize = 0;
    while k < np
        invariant
            k <= np,
            np == plan.len(),
            np <= 127,
            *brstm == *old(brstm),
            plan == track_reshape@,
            nt == old_tracks.len(),
            nchan == old_channels.len(),
            old_tracks == old(brstm).info.tracks@,
            old_channels == old(brstm).info.channels@,
            spec_all_stereo(old_tracks),
            channel_reshape@ == spec_track_srcs(plan.subrange(0, k as int), old_tracks),
            channel_reshape@.len() == 2 * k,
            new_tracks@.len() == k,
            forall|j: int|
                0 <= j < k ==> new_tracks@[j] == spec_track_new_tracks(plan, old_tracks)[j],
            new_channels@.len() == 2 * k,
            forall|j: int|
                0 <= j < 2 * k ==> new_channels@[j] == match channel_reshape@[j] {
                    crate::reshaper::ReshapeSrc::Channel(c) => old_channels[c as int],
                    crate::reshaper::ReshapeSrc::Empty => spec_default_chan(),
                },
            forall|j: int|
                0 <= j < k ==> match #[trigger] plan[j] {
                    ReshapeSrc::Track(t) => t < old_tracks.len()
                        && old_tracks[t as int].channels.spec_left() < nchan
                        && old_tracks[t as int].channels.spec_right() < nchan,
                    ReshapeSrc::Empty => true,
                },
        decreases np - k,
    {
        let entry = track_reshape[k];
        match entry {
            ReshapeSrc::Track(track_ref) => {
                if track_ref as usize >= nt {
                    return Err(ReshapeError::TrackNotExistent);
                }
                let src_track = &brstm.info.tracks[track_ref as usize];
                let l = src_track.channels.left_channel_id();
                let rr = src_track.channels.right_channel_id();
                if l as usize >= nchan || rr as usize >= nchan {
                    return Err(ReshapeError::TrackNotExistent);
                }
                channel_reshape.push(crate::reshaper::ReshapeSrc::Channel(l));
                channel_reshape.push(crate::reshaper::ReshapeSrc::Channel(rr));
                let v1 = match &src_track.info_v1 {
                    Some(v) => Some(*v),
                    None => None,
                };
                new_tracks.push(
                    TrackDescription {
                        info_v1: v1,
                        channels: Channels::Stereo((2 * k) as u8, (2 * k + 1) as u8),
                    },
                );
                new_channels.push(brstm.info.channels[l as usize]);
                new_channels.push(brstm.info.channels[rr as usize]);
            },
            ReshapeSrc::Empty => {
                channel_reshape.push(crate::reshaper::ReshapeSrc::Empty);
                channel_reshape.push(crate::reshaper::ReshapeSrc::Empty);
                new_tracks.push(
                    TrackDescription {
                        info_v1: None,
                        channels: Channels::Stereo((2 * k) as u8, (2 * k + 1) as u8),
                    },
                );
                let d1 = AdpcmChannelInformation::default();
                let d2 = AdpcmChannelInformation::default();
                proof {
                    assert(d1.adpcm_coefficients =~= spec_default_chan().adpcm_coefficients);
                    assert(d1.adpcm_coefficients@ =~= spec_default_chan().adpcm_coefficients@);
                    assert(d2.adpcm_coefficients =~= spec_default_chan().adpcm_coefficients);
                    assert(d2.adpcm_coefficients@ =~= spec_default_chan().adpcm_coefficients@);
                }
                new_channels.push(d1);
                new_channels.push(d2);
            },
        }
        k = k + 1;
        proof {
            let pre = plan.subrange(0, k as int);
            assert(pre.drop_last() =~= plan.subrange(0, k - 1));
            lemma_track_srcs_len(pre, old_tracks);
            assert(channel_reshape@ =~= spec_track_srcs(pre, old_tracks));
        }
    }
    proof {
        assert(plan.subrange(0, np as int) =~= plan);
    }

    let ghost srcs = spec_track_srcs(plan, old_tracks);
    proof {
        lemma_track_srcs_len(plan, old_tracks);
        lemma_track_srcs_ok(plan, old_tracks, nchan as int);
    }
    let nsrc = channel_reshape.len();
    let h = brstm.info.info;
    let total_blocks = h.total_blocks;
    let mut adpc_bytes: Vec<u8> = Vec::new();
    let mut data_bytes: Vec<u8> = Vec::new();
    let mut b: u32 = 0;
    while b < total_blocks
        invariant
            b <= total_blocks,
            *brstm == *old(brstm),
            h == old(brstm).info.info,
            total_blocks == h.total_blocks,
            nchan == old(brstm).info.channels@.len(),
            nchan == h.num_channels,
            old(brstm).wf_adpc(),
            old(brstm).wf_data(),
            nsrc == srcs.len(),
            channel_reshape@ == srcs,
            forall|j: int|
                0 <= j < nsrc ==> crate::reshaper::spec_src_ok(#[trigger] srcs[j], nchan as int),
            adpc_bytes@ == spec_new_adpc(old(brstm).adpcm_bytes@, h, srcs, b as int),
            data_bytes@ == spec_new_data(old(brstm).data_bytes@, h, srcs, b as int),
        decreases total_blocks - b,
    {
        let mut j: usize = 0;
        let ghost adpc_row_base = adpc_bytes@;
        let ghost data_row_base = data_bytes@;
        while j < nsrc
            invariant
                j <= nsrc,
                b < total_blocks,
                *brstm == *old(brstm),
                h == old(brstm).info.info,
                total_blocks == h.total_blocks,
                nchan == old(brstm).info.channels@.len(),
                nchan == h.num_channels,
                old(brstm).wf_adpc(),
                old(brstm).wf_data(),
                nsrc == srcs.len(),
                channel_reshape@ == srcs,
                forall|jj: int|
                    0 <= jj < nsrc ==> crate::reshaper::spec_src_ok(
                        #[trigger] srcs[jj],
                        nchan as int,
                    ),
                adpc_bytes@ == adpc_row_base + spec_adpc_row(
                    old(brstm).adpcm_bytes@,
                    h,
                    srcs.subrange(0, j as int),
                    b as int,
                ),
                data_bytes@ == data_row_base + spec_data_row(
                    old(brstm).data_bytes@,
                    h,
                    srcs.subrange(0, j as int),
                    b as int,
                ),
            decreases nsrc - j,
        {
            let src = channel_reshape[j];
            match src {
                crate::reshaper::ReshapeSrc::Empty => {
                    push_zeros(&mut adpc_bytes, 4);
                    let block_size = if b == total_blocks - 1 {
                        brstm.info.info.final_block_size_padded
                    } else {
                        brstm.info.info.blocks_size
                    };
                    push_zeros(&mut data_bytes, block_size as usize);
                },
                crate::reshaper::ReshapeSrc::Channel(channel_ref) => {
                    let entry = brstm.get_adpc_bytes(channel_ref, b);
                    push_bytes(&mut adpc_bytes, entry.as_slice());
                    let block = brstm.get_data_block(channel_ref, b);
                    push_bytes(&mut data_bytes, block);
                },
            }
            j = j + 1;
            proof {
                let pre = srcs.subrange(0, j as int);
                assert(pre.drop_last() =~= srcs.subrange(0, j - 1));
                assert(adpc_bytes@ =~= adpc_row_base + spec_adpc_row(
                    old(brstm).adpcm_bytes@,
                    h,
                    pre,
                    b as int,
                ));
                assert(data_bytes@ =~= data_row_base + spec_data_row(
                    old(brstm).data_bytes@,
                    h,
                    pre,
                    b as int,
                ));
            }
        }
        b = b + 1;
        proof {
            assert(srcs.subrange(0, nsrc as int) =~= srcs);
        }
    }

    brstm.info.info.num_channels = nsrc as u8;
    brstm.data_bytes = data_bytes;
    brstm.adpcm_bytes = adpc_bytes;
    brstm.info.tracks = new_tracks;
    brstm.info.channels = new_channels;
    proof {
        assert(final(brstm).info.tracks@ =~= spec_track_new_tracks(plan, old_tracks));
        assert(final(brstm).info.channels@ =~= spec_new_channels(srcs, old_channels));
    }
    Ok(())
}

} // verus!
