//! The in-memory container model: parsed stream information, tracks and
//! channels, the location of the two payload sections, and the operations on
//! them — track validity checking and repair, block-addressed payload
//! accessors, and ADPCM decoding to PCM.

use vstd::arithmetic::div_mod::{lemma_div_is_ordered, lemma_div_plus_one};
use vstd::prelude::*;

use crate::bytes::{push_bytes, push_zeros, read_i16_at, spec_align32, spec_read_i16, spec_read_u32, zeros};
use crate::gc_dspadpcm::{
    clamp_to_i16, floor_div_2048, mul16, scale_of, spec_decode, spec_decode_sample, spec_nibble,
    spec_ps_byte, spec_scale,
};
use crate::structs::{
    AdpcHeader, AdpcmChannelInformation, BrstmHeader, Channels, ChannelInfoOffset, DataHeader,
    ParseError, ParseErrorKind,
    Head1, Head2, Head3, HeadChunkOffsets, HeadSectionHeader, TrackDescription, TrackDescriptionV1,
    TrackInfoOffset,
};

verus! {

/// The mathematical model of a parsed container: the same data with the
/// track and channel lists as sequences.
#[verifier::ext_equal]
pub struct BrstmModel {
    pub info: Head1,
    pub tracks: Seq<TrackDescription>,
    pub channels: Seq<AdpcmChannelInformation>,
    pub adpcm_offset: u32,
    pub adpcm_size: u32,
    pub data_offset: u32,
    pub data_size: u32,
}

/// A parsed container: stream information, track descriptions, per-channel
/// ADPCM information, and where the two payload sections' bodies lie in the
/// source bytes (header excluded).
#[derive(Clone, Debug)]
pub struct BrstmInformation {
    pub info: Head1,
    pub tracks: Vec<TrackDescription>,
    pub channels: Vec<AdpcmChannelInformation>,
    /// Offset of the ADPC section body in the source bytes.
    pub adpcm_offset: u32,
    /// Length of the ADPC section body.
    pub adpcm_size: u32,
    /// Offset of the DATA section body in the source bytes.
    pub data_offset: u32,
    /// Length of the DATA section body.
    pub data_size: u32,
}

impl View for BrstmInformation {
    type V = BrstmModel;

    open spec fn view(&self) -> BrstmModel {
        BrstmModel {
            info: self.info,
            tracks: self.tracks@,
            channels: self.channels@,
            adpcm_offset: self.adpcm_offset,
            adpcm_size: self.adpcm_size,
            data_offset: self.data_offset,
            data_size: self.data_size,
        }
    }
}

/// Whether `channel` is one of the channels a track plays, over unbounded
/// channel indices.
pub open spec fn spec_includes_channel_int(ch: Channels, c: int) -> bool {
    match ch {
        Channels::Mono(x) => x == c,
        Channels::Stereo(l, r) => l == c || r == c,
    }
}

/// Every channel index a track references exists.
pub open spec fn spec_track_refs_valid(t: TrackDescription, n: int) -> bool {
    match t.channels {
        Channels::Mono(c) => c < n,
        Channels::Stereo(l, r) => l < n && r < n,
    }
}

/// Some track references channel `c`.
pub open spec fn spec_channel_referenced(tracks: Seq<TrackDescription>, c: int) -> bool {
    exists|i: int|
        0 <= i < tracks.len() && spec_includes_channel_int(#[trigger] tracks[i].channels, c)
}

/// The validity the container expects of its track list: every reference is
/// to an existing channel, and every one of the `n` channels is referenced.
pub open spec fn spec_tracks_valid(tracks: Seq<TrackDescription>, n: int) -> bool {
    &&& forall|i: int| 0 <= i < tracks.len() ==> spec_track_refs_valid(#[trigger] tracks[i], n)
    &&& forall|c: int| 0 <= c < n ==> spec_channel_referenced(tracks, c)
}

/// The track list `fix_tracks` rebuilds for `n` channels: stereo pairs when
/// `n` is even and more than one, else one mono track per channel.
pub open spec fn spec_rebuilt_tracks(n: int) -> Seq<TrackDescription> {
    if n > 1 && n % 2 == 0 {
        Seq::new(
            (n / 2) as nat,
            |i: int|
                TrackDescription {
                    info_v1: None,
                    channels: Channels::Stereo((2 * i) as u8, (2 * i + 1) as u8),
                },
        )
    } else {
        Seq::new(
            n as nat,
            |i: int| TrackDescription { info_v1: None, channels: Channels::Mono(i as u8) },
        )
    }
}

/// The rebuilt track list is always valid.
pub proof fn lemma_rebuilt_tracks_valid(n: int)
    requires
        0 <= n <= 255,
    ensures
        spec_tracks_valid(spec_rebuilt_tracks(n), n),
{
    let ts = spec_rebuilt_tracks(n);
    if n > 1 && n % 2 == 0 {
        assert forall|c: int| 0 <= c < n implies spec_channel_referenced(ts, c) by {
            let i = c / 2;
            assert(c == 2 * (c / 2) + c % 2);
            assert(spec_includes_channel_int(ts[i].channels, c));
        }
    } else {
        assert forall|c: int| 0 <= c < n implies spec_channel_referenced(ts, c) by {
            assert(spec_includes_channel_int(ts[c].channels, c));
        }
    }
}

/// The channel count per track when every track agrees on one, else absent.
pub open spec fn spec_channels_per_track(tracks: Seq<TrackDescription>) -> Option<u8> {
    if tracks.len() == 0 {
        None
    } else if forall|i: int|
        0 <= i < tracks.len() ==> (#[trigger] tracks[i]).channels.spec_channels()
            == tracks[0].channels.spec_channels() {
        Some(tracks[0].channels.spec_channels())
    } else {
        None
    }
}

impl BrstmInformation {
    /// The number of channels the container holds.
    pub fn channel_count(&self) -> (r: u8)
        requires
            self.channels@.len() <= 255,
        ensures
            r == self.channels@.len(),
    {
        self.channels.len() as u8
    }

    /// The channel count shared by every track, or `None` if the tracks
    /// disagree or there are none.
    pub fn channels_per_track(&self) -> (r: Option<u8>)
        ensures
            r == spec_channels_per_track(self.tracks@),
    {
        let nt = self.tracks.len();
        if nt == 0 {
            return None;
        }
        let first = self.tracks[0].channels.channels();
        let mut i: usize = 1;
        while i < nt
            invariant
                1 <= i <= nt,
                nt == self.tracks@.len(),
                first == self.tracks@[0].channels.spec_channels(),
                forall|j: int|
                    0 <= j < i ==> (#[trigger] self.tracks@[j]).channels.spec_channels() == first,
            decreases nt - i,
        {
            if self.tracks[i].channels.channels() != first {
                return None;
            }
            i = i + 1;
        }
        Some(first)
    }

    /// Whether every track is stereo.
    pub fn is_stereo(&self) -> (r: bool)
        ensures
            r == (spec_channels_per_track(self.tracks@) == Some(2u8)),
    {
        match self.channels_per_track() {
            Some(c) => c == 2,
            None => false,
        }
    }

    /// Whether every track is mono.
    pub fn is_mono(&self) -> (r: bool)
        ensures
            r == (spec_channels_per_track(self.tracks@) == Some(1u8)),
    {
        match self.channels_per_track() {
            Some(c) => c == 1,
            None => false,
        }
    }

    /// Whether the track information is intact: no track references a
    /// channel that does not exist, and every channel is referenced.
    pub fn check_tracks_valid(&self) -> (r: bool)
        ensures
            r == spec_tracks_valid(self.tracks@, self.channels@.len() as int),
    {
        let n = self.channels.len();
        let nt = self.tracks.len();
        let mut ti: usize = 0;
        while ti < nt
            invariant
                ti <= nt,
                n == self.channels@.len(),
                nt == self.tracks@.len(),
                forall|j: int| 0 <= j < ti ==> spec_track_refs_valid(#[trigger] self.tracks@[j], n as int),
            decreases nt - ti,
        {
            match &self.tracks[ti].channels {
                Channels::Mono(c) => {
                    if *c as usize >= n {
                        return false;
                    }
                },
                Channels::Stereo(l, r) => {
                    if *l as usize >= n || *r as usize >= n {
                        return false;
                    }
                },
            }
            ti = ti + 1;
        }
        let mut c: usize = 0;
        while c < n
            invariant
                c <= n,
                n == self.channels@.len(),
                nt == self.tracks@.len(),
                forall|j: int| 0 <= j < nt ==> spec_track_refs_valid(#[trigger] self.tracks@[j], n as int),
                forall|cc: int| 0 <= cc < c ==> spec_channel_referenced(self.tracks@, cc),
            decreases n - c,
        {
            if c > 255 {
                proof {
                    assert(!spec_channel_referenced(self.tracks@, c as int));
                }
                return false;
            }
            let mut found = false;
            let mut ti: usize = 0;
            while ti < nt
                invariant
                    ti <= nt,
                    c <= 255,
                    nt == self.tracks@.len(),
                    !found ==> forall|j: int|
                        0 <= j < ti ==> !spec_includes_channel_int(
                            (#[trigger] self.tracks@[j]).channels,
                            c as int,
                        ),
                    found ==> spec_channel_referenced(self.tracks@, c as int),
                decreases nt - ti,
            {
                if self.tracks[ti].channels.includes_channel(c as u8) {
                    found = true;
                    proof {
                        assert(spec_includes_channel_int(self.tracks@[ti as int].channels, c as int));
                    }
                }
                ti = ti + 1;
            }
            if !found {
                proof {
                    assert(!spec_channel_referenced(self.tracks@, c as int));
                }
                return false;
            }
            c = c + 1;
        }
        true
    }

    /// Repair a container whose track information is broken: resynchronize
    /// the stored channel count with the channel list, and when a track
    /// references a missing channel, rebuild the track list as stereo pairs
    /// (for an even channel count above one) or mono tracks. Returns whether
    /// anything changed; a valid container is left untouched.
    pub fn fix_tracks(&mut self) -> (r: bool)
        requires
            old(self).channels@.len() <= 255,
        ensures
            final(self).channels@ == old(self).channels@,
            final(self).adpcm_offset == old(self).adpcm_offset,
            final(self).adpcm_size == old(self).adpcm_size,
            final(self).data_offset == old(self).data_offset,
            final(self).data_size == old(self).data_size,
            final(self).info == (Head1 {
                num_channels: old(self).channels@.len() as u8,
                ..old(self).info
            }),
            spec_tracks_valid(final(self).tracks@, final(self).channels@.len() as int),
            spec_tracks_valid(old(self).tracks@, old(self).channels@.len() as int)
                ==> final(self).tracks@ == old(self).tracks@,
            !spec_tracks_valid(old(self).tracks@, old(self).channels@.len() as int)
                ==> final(self).tracks@ == spec_rebuilt_tracks(old(self).channels@.len() as int),
            r == !(spec_tracks_valid(old(self).tracks@, old(self).channels@.len() as int)
                && old(self).info.num_channels == old(self).channels@.len()),
            !r ==> *final(self) == *old(self),
    {
        let mut made_change = false;
        let n = self.channels.len();
        if self.info.num_channels as usize != n {
            self.info.num_channels = n as u8;
            made_change = true;
        }
        if !self.check_tracks_valid() {
            if n > 1 && n % 2 == 0 {
                let mut tracks: Vec<TrackDescription> = Vec::new();
                let half = n / 2;
                let mut i: usize = 0;
                while i < half
                    invariant
                        i <= half,
                        half == n / 2,
                        n <= 255,
                        tracks@.len() == i,
                        forall|j: int|
                            0 <= j < i ==> tracks@[j] == (TrackDescription {
                                info_v1: None,
                                channels: Channels::Stereo((2 * j) as u8, (2 * j + 1) as u8),
                            }),
                    decreases half - i,
                {
                    tracks.push(
                        TrackDescription {
                            info_v1: None,
                            channels: Channels::Stereo((i * 2) as u8, (i * 2 + 1) as u8),
                        },
                    );
                    i = i + 1;
                }
                proof {
                    assert(tracks@ =~= spec_rebuilt_tracks(n as int));
                }
                self.tracks = tracks;
            } else {
                let mut tracks: Vec<TrackDescription> = Vec::new();
                let mut i: usize = 0;
                while i < n
                    invariant
                        i <= n,
                        n <= 255,
                        tracks@.len() == i,
                        forall|j: int|
                            0 <= j < i ==> tracks@[j] == (TrackDescription {
                                info_v1: None,
                                channels: Channels::Mono(j as u8),
                            }),
                    decreases n - i,
                {
                    tracks.push(
                        TrackDescription { info_v1: None, channels: Channels::Mono(i as u8) },
                    );
                    i = i + 1;
                }
                proof {
                    assert(tracks@ =~= spec_rebuilt_tracks(n as int));
                }
                self.tracks = tracks;
            }
            made_change = true;
            proof {
                lemma_rebuilt_tracks_valid(n as int);
            }
        }
        made_change
    }
}

/// The byte length of block `b` for one channel: the padded final-block
/// length for the last block, else the regular block length.
pub open spec fn spec_block_size(h: Head1, b: int) -> int {
    if b == h.total_blocks - 1 {
        h.final_block_size_padded as int
    } else {
        h.blocks_size as int
    }
}

/// The sample count of block `b` for one channel.
pub open spec fn spec_block_samples(h: Head1, b: int) -> int {
    if b == h.total_blocks - 1 {
        h.final_block_samples as int
    } else {
        h.blocks_samples as int
    }
}

/// Where channel `c`'s bytes of block `b` begin in the DATA payload: blocks
/// are interleaved row by row, the final row with the padded final size.
pub open spec fn spec_block_offset(h: Head1, c: int, b: int) -> int {
    if b == h.total_blocks - 1 {
        b * h.num_channels * h.blocks_size + c * h.final_block_size_padded
    } else {
        (b * h.num_channels + c) * h.blocks_size
    }
}

/// The total DATA payload length the block layout occupies.
pub open spec fn spec_data_layout_len(h: Head1) -> int {
    (h.total_blocks - 1) * h.num_channels * h.blocks_size + h.num_channels
        * h.final_block_size_padded
}

/// Where channel `c`'s seek-table entry for block `b` begins in the ADPC
/// payload.
pub open spec fn spec_adpc_entry_offset(h: Head1, c: int, b: int) -> int {
    b * 4 * h.num_channels + c * 4
}

/// Every block slot lies inside the layout.
pub proof fn lemma_block_in_range(h: Head1, c: int, b: int)
    requires
        0 <= c < h.num_channels,
        0 <= b < h.total_blocks,
    ensures
        0 <= spec_block_offset(h, c, b),
        spec_block_offset(h, c, b) + spec_block_size(h, b) <= spec_data_layout_len(h),
{
    let nc = h.num_channels as int;
    let bs = h.blocks_size as int;
    let fbp = h.final_block_size_padded as int;
    let tb = h.total_blocks as int;
    if b == tb - 1 {
        assert(b * nc * bs + c * fbp >= 0 && b * nc * bs + c * fbp + fbp <= (tb - 1) * nc * bs + nc
            * fbp) by (nonlinear_arith)
            requires
                0 <= c,
                c < nc,
                b == tb - 1,
                0 <= b,
                bs >= 0,
                fbp >= 0,
        ;
    } else {
        assert((b * nc + c) * bs >= 0 && (b * nc + c) * bs + bs <= (tb - 1) * nc * bs + nc * fbp)
            by (nonlinear_arith)
            requires
                0 <= c,
                c < nc,
                0 <= b,
                b <= tb - 2,
                bs >= 0,
                fbp >= 0,
        ;
    }
}

/// Distinct block slots never overlap: block addressing is injective over
/// byte ranges.
pub proof fn lemma_data_blocks_disjoint(h: Head1, c1: int, b1: int, c2: int, b2: int)
    requires
        0 <= c1 < h.num_channels,
        0 <= b1 < h.total_blocks,
        0 <= c2 < h.num_channels,
        0 <= b2 < h.total_blocks,
        c1 != c2 || b1 != b2,
    ensures
        spec_block_offset(h, c1, b1) + spec_block_size(h, b1) <= spec_block_offset(h, c2, b2)
            || spec_block_offset(h, c2, b2) + spec_block_size(h, b2) <= spec_block_offset(
            h,
            c1,
            b1,
        ),
{
    let nc = h.num_channels as int;
    let bs = h.blocks_size as int;
    let fbp = h.final_block_size_padded as int;
    let tb = h.total_blocks as int;
    if b1 == b2 {
        if b1 == tb - 1 {
            if c1 < c2 {
                assert(b1 * nc * bs + c1 * fbp + fbp <= b1 * nc * bs + c2 * fbp)
                    by (nonlinear_arith)
                    requires
                        c1 + 1 <= c2,
                        fbp >= 0,
                ;
            } else {
                assert(b1 * nc * bs + c2 * fbp + fbp <= b1 * nc * bs + c1 * fbp)
                    by (nonlinear_arith)
                    requires
                        c2 + 1 <= c1,
                        fbp >= 0,
                ;
            }
        } else {
            if c1 < c2 {
                assert((b1 * nc + c1) * bs + bs <= (b1 * nc + c2) * bs) by (nonlinear_arith)
                    requires
                        c1 + 1 <= c2,
                        bs >= 0,
                ;
            } else {
                assert((b1 * nc + c2) * bs + bs <= (b1 * nc + c1) * bs) by (nonlinear_arith)
                    requires
                        c2 + 1 <= c1,
                        bs >= 0,
                ;
            }
        }
    } else {
        let lo_b = if b1 < b2 {
            b1
        } else {
            b2
        };
        let hi_b = if b1 < b2 {
            b2
        } else {
            b1
        };
        let lo_c = if b1 < b2 {
            c1
        } else {
            c2
        };
        let hi_c = if b1 < b2 {
            c2
        } else {
            c1
        };
        assert(lo_b < tb - 1);
        // the earlier block ends within its row; the later block begins at
        // or after its own row start
        if hi_b == tb - 1 {
            assert((lo_b * nc + lo_c) * bs + bs <= hi_b * nc * bs + hi_c * fbp)
                by (nonlinear_arith)
                requires
                    0 <= lo_c,
                    lo_c < nc,
                    lo_b >= 0,
                    lo_b + 1 <= hi_b,
                    hi_c >= 0,
                    bs >= 0,
                    fbp >= 0,
            ;
        } else {
            assert((lo_b * nc + lo_c) * bs + bs <= (hi_b * nc + hi_c) * bs) by (nonlinear_arith)
                requires
                    0 <= lo_c,
                    lo_c < nc,
                    lo_b >= 0,
                    lo_b + 1 <= hi_b,
                    hi_c >= 0,
                    bs >= 0,
            ;
        }
    }
}

/// A parsed container together with its two payload buffers: the ADPC seek
/// table body and the block-interleaved DATA body.
#[derive(Debug)]
pub struct BrstmInfoWithData {
    pub info: BrstmInformation,
    pub adpcm_bytes: Vec<u8>,
    pub data_bytes: Vec<u8>,
}

impl BrstmInfoWithData {
    /// The seek table covers every block of every channel.
    pub open spec fn wf_adpc(&self) -> bool {
        self.info.info.total_blocks * 4 * self.info.info.num_channels <= self.adpcm_bytes@.len()
    }

    /// The DATA payload covers the whole block layout, and the layout's
    /// row arithmetic stays within the address space.
    pub open spec fn wf_data(&self) -> bool {
        &&& self.info.info.total_blocks >= 1
        &&& spec_data_layout_len(self.info.info) <= self.data_bytes@.len()
        &&& self.info.info.total_blocks * self.info.info.num_channels <= usize::MAX
        &&& self.info.info.total_blocks * self.info.info.num_channels
            * self.info.info.blocks_size <= usize::MAX
    }

    /// What decoding needs of a container: intact payload sizes, blocks
    /// large enough for their sample counts, the stated entry width, and a
    /// channel information record per channel.
    pub open spec fn wf_decode(&self) -> bool {
        &&& self.wf_adpc()
        &&& self.wf_data()
        &&& self.info.info.adpc_bytes_per_entry == 4
        &&& self.info.channels@.len() == self.info.info.num_channels
        &&& 8 * ((self.info.info.blocks_samples + 13) / 14) <= self.info.info.blocks_size
        &&& 8 * ((self.info.info.final_block_samples + 13) / 14)
            <= self.info.info.final_block_size_padded
        &&& (self.info.info.total_blocks - 1) * self.info.info.blocks_samples
            + self.info.info.final_block_samples <= usize::MAX
    }

    /// The 4-byte seek-table entry of `channel` at `block_index`.
    pub fn get_adpc_bytes(&self, channel: u8, block_index: u32) -> (r: [u8; 4])
        requires
            channel < self.info.info.num_channels,
            block_index < self.info.info.total_blocks,
            self.wf_adpc(),
        ensures
            r@ == self.adpcm_bytes@.subrange(
                spec_adpc_entry_offset(self.info.info, channel as int, block_index as int),
                spec_adpc_entry_offset(self.info.info, channel as int, block_index as int) + 4,
            ),
    {
        let nc = self.info.info.num_channels as usize;
        let alen = self.adpcm_bytes.len();
        proof {
            let bi = block_index as int;
            let ci = channel as int;
            let nci = nc as int;
            let tbi = self.info.info.total_blocks as int;
            assert(bi * 4 <= bi * 4 * nci && bi * 4 * nci + ci * 4 + 4 <= tbi * 4 * nci)
                by (nonlinear_arith)
                requires
                    0 <= bi,
                    bi < tbi,
                    0 <= ci,
                    ci < nci,
                    1 <= nci,
            ;
            assert(tbi * 4 * nci <= alen as int);
        }
        let off = block_index as usize * 4 * nc + channel as usize * 4;
        let r = [
            self.adpcm_bytes[off],
            self.adpcm_bytes[off + 1],
            self.adpcm_bytes[off + 2],
            self.adpcm_bytes[off + 3],
        ];
        proof {
            assert(r@ =~= self.adpcm_bytes@.subrange(off as int, off as int + 4));
        }
        r
    }

    /// The decoder history pair `(yn1, yn2)` of `channel` at `block_index`,
    /// decoded big-endian from the seek table.
    pub fn get_adpc_values(&self, channel: u8, block_index: u32) -> (r: (i16, i16))
        requires
            channel < self.info.info.num_channels,
            block_index < self.info.info.total_blocks,
            self.wf_adpc(),
        ensures
            r.0 == spec_read_i16(
                self.adpcm_bytes@,
                spec_adpc_entry_offset(self.info.info, channel as int, block_index as int),
            ),
            r.1 == spec_read_i16(
                self.adpcm_bytes@,
                spec_adpc_entry_offset(self.info.info, channel as int, block_index as int) + 2,
            ),
    {
        let nc = self.info.info.num_channels as usize;
        let alen = self.adpcm_bytes.len();
        proof {
            let bi = block_index as int;
            let ci = channel as int;
            let nci = nc as int;
            let tbi = self.info.info.total_blocks as int;
            assert(bi * 4 <= bi * 4 * nci && bi * 4 * nci + ci * 4 + 4 <= tbi * 4 * nci)
                by (nonlinear_arith)
                requires
                    0 <= bi,
                    bi < tbi,
                    0 <= ci,
                    ci < nci,
                    1 <= nci,
            ;
            assert(tbi * 4 * nci <= alen as int);
        }
        let off = block_index as usize * 4 * nc + channel as usize * 4;
        (read_i16_at(self.adpcm_bytes.as_slice(), off), read_i16_at(
            self.adpcm_bytes.as_slice(),
            off + 2,
        ))
    }

    /// The DATA bytes of `channel` at `block_index`: `blocks_size` bytes, or
    /// `final_block_size_padded` for the last block.
    pub fn get_data_block(&self, channel: u8, block_index: u32) -> (r: &[u8])
        requires
            channel < self.info.info.num_channels,
            block_index < self.info.info.total_blocks,
            self.wf_data(),
        ensures
            r@ == self.data_bytes@.subrange(
                spec_block_offset(self.info.info, channel as int, block_index as int),
                spec_block_offset(self.info.info, channel as int, block_index as int)
                    + spec_block_size(self.info.info, block_index as int),
            ),
            r@.len() == spec_block_size(self.info.info, block_index as int),
    {
        let nc = self.info.info.num_channels as usize;
        let bs = self.info.info.blocks_size as usize;
        let dlen = self.data_bytes.len();
        proof {
            lemma_block_in_range(self.info.info, channel as int, block_index as int);
            let bi = block_index as int;
            let ci = channel as int;
            let nci = nc as int;
            let bsi = bs as int;
            let fbpi = self.info.info.final_block_size_padded as int;
            let tbi = self.info.info.total_blocks as int;
            assert(0 <= bi * nci && bi * nci <= tbi * nci && 0 <= bi * nci * bsi && bi * nci * bsi
                <= tbi * nci * bsi && 0 <= ci * fbpi && bi * nci * bsi <= bi * nci * bsi + ci
                * fbpi && bi * nci + ci <= tbi * nci) by (nonlinear_arith)
                requires
                    0 <= bi,
                    bi < tbi,
                    0 <= ci,
                    ci < nci,
                    bsi >= 0,
                    fbpi >= 0,
            ;
            assert(tbi * nci <= usize::MAX);
            assert(tbi * nci * bsi <= usize::MAX);
            assert(spec_data_layout_len(self.info.info) <= dlen as int);
        }
        let (data_offset, block_size): (usize, usize) = if block_index
            == self.info.info.total_blocks - 1 {
            (
                block_index as usize * nc * bs + channel as usize
                    * self.info.info.final_block_size_padded as usize,
                self.info.info.final_block_size_padded as usize,
            )
        } else {
            ((block_index as usize * nc + channel as usize) * bs, bs)
        };
        &self.data_bytes[data_offset..data_offset + block_size]
    }

    /// The DATA bytes of `channel` at `block_index` together with the number
    /// of samples the block decodes to.
    pub fn get_data_block_with_samplecount(&self, channel: u8, block_index: u32) -> (r: (
        &[u8],
        u32,
    ))
        requires
            channel < self.info.info.num_channels,
            block_index < self.info.info.total_blocks,
            self.wf_data(),
        ensures
            r.0@ == self.data_bytes@.subrange(
                spec_block_offset(self.info.info, channel as int, block_index as int),
                spec_block_offset(self.info.info, channel as int, block_index as int)
                    + spec_block_size(self.info.info, block_index as int),
            ),
            r.0@.len() == spec_block_size(self.info.info, block_index as int),
            r.1 == spec_block_samples(self.info.info, block_index as int),
    {
        let block = self.get_data_block(channel, block_index);
        let samples = if block_index == self.info.info.total_blocks - 1 {
            self.info.info.final_block_samples
        } else {
            self.info.info.blocks_samples
        };
        (block, samples)
    }
}

/// Decode one block of packet bytes into `out_buf`: `sample_count` samples,
/// seeded with the history pair `(yn1, yn2)` from the seek table.
pub fn do_decode(
    data: &[u8],
    sample_count: u32,
    yn1: i16,
    yn2: i16,
    coeffs: &[i16; 16],
    out_buf: &mut Vec<i16>,
)
    requires
        8 * ((sample_count + 13) / 14) <= data@.len(),
    ensures
        final(out_buf)@ == old(out_buf)@ + spec_decode(
            data@,
            sample_count as nat,
            yn1,
            yn2,
            coeffs@,
        ),
{
    let n = sample_count as usize;
    let mut cyn1 = yn1;
    let mut cyn2 = yn2;
    let mut idx: usize = 0;
    while idx < n
        invariant
            idx <= n,
            n == sample_count,
            8 * ((n + 13) / 14) <= data@.len(),
            coeffs@.len() == 16,
            out_buf@ == old(out_buf)@ + spec_decode(data@, idx as nat, yn1, yn2, coeffs@),
            out_buf@.len() == old(out_buf)@.len() + idx,
            cyn1 == if idx >= 1 {
                spec_decode(data@, idx as nat, yn1, yn2, coeffs@)[idx - 1]
            } else {
                yn1
            },
            cyn2 == if idx >= 2 {
                spec_decode(data@, idx as nat, yn1, yn2, coeffs@)[idx - 2]
            } else if idx == 1 {
                yn1
            } else {
                yn2
            },
        decreases n - idx,
    {
        proof {
            crate::gc_dspadpcm::lemma_decode_len(data@, idx as nat, yn1, yn2, coeffs@);
            lemma_div_is_ordered(idx as int, n as int - 1, 14);
            lemma_div_plus_one(n as int - 1, 14);
            assert((n as int - 1) / 14 + 1 == (n as int + 13) / 14);
            assert((idx as int / 14) * 8 + 8 <= ((n as int + 13) / 14) * 8) by (nonlinear_arith)
                requires
                    idx as int / 14 + 1 <= (n as int + 13) / 14,
            ;
        }
        let ps = data[(idx / 14) * 8];
        let nbyte = data[(idx / 14) * 8 + 1 + (idx % 14) / 2];
        let v: u8 = if idx % 2 == 0 {
            nbyte / 16
        } else {
            nbyte % 16
        };
        let nib: i64 = if v >= 8 {
            v as i64 - 16
        } else {
            v as i64
        };
        proof {
            assert(nib == spec_nibble(data@, idx as int));
        }
        let ci_raw = (ps / 16) as usize * 2;
        let i1 = if ci_raw < 15 {
            ci_raw
        } else {
            15
        };
        let i2 = if ci_raw + 1 < 15 {
            ci_raw + 1
        } else {
            15
        };
        let c1 = coeffs[i1];
        let c2 = coeffs[i2];
        let g = scale_of(ps) as i64;
        proof {
            vstd::arithmetic::power2::lemma2_to64();
            assert(-0x2000_0000 <= nib * g * 2048 <= 0x2000_0000) by (nonlinear_arith)
                requires
                    -8 <= nib <= 7,
                    1 <= g <= 0x8000,
            ;
        }
        let val = 0x400i64 + nib * g * 2048 + mul16(c1, cyn1) + mul16(c2, cyn2);
        let y = clamp_to_i16(floor_div_2048(val));
        proof {
            assert(nib * g * 2048 == spec_scale(ps) * (nib as int) * 0x800) by (nonlinear_arith)
                requires
                    g as int == spec_scale(ps),
            ;
            assert(y == spec_decode_sample(ps, nib as int, coeffs@, cyn1, cyn2));
        }
        out_buf.push(y);
        proof {
            let d1 = spec_decode(data@, (idx + 1) as nat, yn1, yn2, coeffs@);
            let d0 = spec_decode(data@, idx as nat, yn1, yn2, coeffs@);
            crate::gc_dspadpcm::lemma_decode_len(data@, (idx + 1) as nat, yn1, yn2, coeffs@);
            assert(ps == spec_ps_byte(data@, idx as int));
            assert(d1 == d0.push(
                spec_decode_sample(
                    spec_ps_byte(data@, idx as int),
                    spec_nibble(data@, idx as int),
                    coeffs@,
                    cyn1,
                    cyn2,
                ),
            ));
            assert(out_buf@ =~= old(out_buf)@ + d1);
        }
        cyn2 = cyn1;
        cyn1 = y;
        idx = idx + 1;
    }
}

impl BrstmInfoWithData {
    /// The PCM samples block `b` of `channel` decodes to.
    pub open spec fn spec_block_pcm(&self, channel: int, b: int) -> Seq<i16> {
        spec_decode(
            self.data_bytes@.subrange(
                spec_block_offset(self.info.info, channel, b),
                spec_block_offset(self.info.info, channel, b) + spec_block_size(self.info.info, b),
            ),
            spec_block_samples(self.info.info, b) as nat,
            spec_read_i16(self.adpcm_bytes@, spec_adpc_entry_offset(self.info.info, channel, b)),
            spec_read_i16(
                self.adpcm_bytes@,
                spec_adpc_entry_offset(self.info.info, channel, b) + 2,
            ),
            self.info.channels@[channel].adpcm_coefficients@,
        )
    }

    /// The PCM samples of the first `nblocks` blocks of `channel`,
    /// concatenated.
    pub open spec fn spec_pcm_prefix(&self, channel: int, nblocks: int) -> Seq<i16>
        decreases nblocks,
    {
        if nblocks <= 0 {
            Seq::empty()
        } else {
            self.spec_pcm_prefix(channel, nblocks - 1) + self.spec_block_pcm(channel, nblocks - 1)
        }
    }

    /// The full decoded PCM stream of `channel`.
    pub open spec fn spec_pcm(&self, channel: int) -> Seq<i16> {
        self.spec_pcm_prefix(channel, self.info.info.total_blocks as int)
    }

    /// Decode `channel` to PCM: every block in order, each seeded from its
    /// seek-table history pair.
    pub fn get_pcm(&self, channel: u8) -> (r: Vec<i16>)
        requires
            channel < self.info.info.num_channels,
            self.wf_decode(),
        ensures
            r@ == self.spec_pcm(channel as int),
    {
        let mut result: Vec<i16> = Vec::new();
        let tb = self.info.info.total_blocks;
        let mut block_index: u32 = 0;
        while block_index < tb
            invariant
                block_index <= tb,
                tb == self.info.info.total_blocks,
                channel < self.info.info.num_channels,
                self.wf_decode(),
                result@ == self.spec_pcm_prefix(channel as int, block_index as int),
                block_index < tb ==> result@.len() == block_index
                    * self.info.info.blocks_samples,
                block_index == tb ==> result@.len() == (tb - 1) * self.info.info.blocks_samples
                    + self.info.info.final_block_samples,
            decreases tb - block_index,
        {
            let (cyn1, cyn2) = self.get_adpc_values(channel, block_index);
            let (block_data, samples) = self.get_data_block_with_samplecount(channel, block_index);
            proof {
                let bsam = self.info.info.blocks_samples as int;
                let fsam = self.info.info.final_block_samples as int;
                let tbi = tb as int;
                let bi = block_index as int;
                if bi < tbi - 1 {
                    assert(bi * bsam + bsam == (bi + 1) * bsam && (bi + 1) * bsam <= (tbi - 1)
                        * bsam && (tbi - 1) * bsam <= (tbi - 1) * bsam + fsam)
                        by (nonlinear_arith)
                        requires
                            0 <= bi,
                            bi + 1 <= tbi - 1,
                            bsam >= 0,
                            fsam >= 0,
                    ;
                }
            }
            do_decode(
                block_data,
                samples,
                cyn1,
                cyn2,
                &self.info.channels[channel as usize].adpcm_coefficients,
                &mut result,
            );
            proof {
                crate::gc_dspadpcm::lemma_decode_len(
                    block_data@,
                    samples as nat,
                    cyn1,
                    cyn2,
                    self.info.channels@[channel as int].adpcm_coefficients@,
                );
            }
            block_index = block_index + 1;
        }
        result
    }
}

/// Whether any track carries the version-1 volume/panning extension; the
/// writer then emits every track as version 1.
pub open spec fn spec_any_v1(tracks: Seq<TrackDescription>) -> bool {
    exists|i: int| 0 <= i < tracks.len() && (#[trigger] tracks[i]).info_v1 is Some
}

/// Bytes per serialized track description.
pub open spec fn spec_track_desc_bytes(tracks: Seq<TrackDescription>) -> int {
    if spec_any_v1(tracks) {
        12
    } else {
        4
    }
}

/// The track as the writer emits it: untouched for version-0 files; for
/// version-1 files a missing extension is invented as volume 127, pan 64.
pub open spec fn spec_promoted_track(t: TrackDescription, any_v1: bool) -> TrackDescription {
    TrackDescription {
        info_v1: if any_v1 {
            if t.info_v1 is Some {
                t.info_v1
            } else {
                Some(TrackDescriptionV1 { track_volume: 127, track_panning: 64 })
            }
        } else {
            None
        },
        channels: t.channels,
    }
}

/// The serialized track descriptions, in order, promoted as emitted.
pub open spec fn spec_ser_tracks(ts: Seq<TrackDescription>, any_v1: bool) -> Seq<u8>
    decreases ts.len(),
{
    if ts.len() == 0 {
        Seq::empty()
    } else {
        spec_ser_tracks(ts.drop_last(), any_v1) + spec_promoted_track(ts.last(), any_v1).spec_ser()
    }
}

pub proof fn lemma_ser_tracks_len(ts: Seq<TrackDescription>, any_v1: bool)
    ensures
        spec_ser_tracks(ts, any_v1).len() == ts.len() * (if any_v1 {
            12int
        } else {
            4int
        }),
    decreases ts.len(),
{
    if ts.len() > 0 {
        lemma_ser_tracks_len(ts.drop_last(), any_v1);
    }
}

/// The serialized channel information blocks: entry `i` is emitted with its
/// coefficient-array offset rewritten to `base + 56 * i + 8`.
pub open spec fn spec_ser_chans(cs: Seq<AdpcmChannelInformation>, base: int) -> Seq<u8>
    decreases cs.len(),
{
    if cs.len() == 0 {
        Seq::empty()
    } else {
        spec_ser_chans(cs.drop_last(), base) + (AdpcmChannelInformation {
            channel_adpcm_coefficients_offset: (base + 56 * (cs.len() - 1) + 8) as u32,
            ..cs.last()
        }).spec_ser()
    }
}

pub proof fn lemma_ser_chans_len(cs: Seq<AdpcmChannelInformation>, base: int)
    ensures
        spec_ser_chans(cs, base).len() == 56 * cs.len(),
    decreases cs.len(),
{
    if cs.len() > 0 {
        lemma_ser_chans_len(cs.drop_last(), base);
        let last = (AdpcmChannelInformation {
            channel_adpcm_coefficients_offset: (base + 56 * (cs.len() - 1) + 8) as u32,
            ..cs.last()
        });
        AdpcmChannelInformation::lemma_ser_coefs_len(last.adpcm_coefficients@);
    }
}

/// Parsing a serialized channel information block recovers it.
#[verifier::rlimit(100)]
#[verifier::spinoff_prover]
pub proof fn lemma_parse_chan_of_ser(ci: AdpcmChannelInformation, s: Seq<u8>, off: int)
    requires
        0 <= off,
        off + 56 <= s.len(),
        s.subrange(off, off + 56) == ci.spec_ser(),
    ensures
        spec_parse_chan(s, off) == ci,
{
    let c0 = crate::bytes::spec_u32_be(0x0100_0000);
    let c1 = crate::bytes::spec_u32_be(ci.channel_adpcm_coefficients_offset);
    let c2 = AdpcmChannelInformation::spec_ser_coefs(ci.adpcm_coefficients@);
    let c3 = crate::bytes::spec_i16_be(ci.gain);
    let c4 = crate::bytes::spec_i16_be(ci.initial_predictor);
    let c5 = crate::bytes::spec_i16_be(ci.history_sample1);
    let c6 = crate::bytes::spec_i16_be(ci.history_sample2);
    let c7 = crate::bytes::spec_i16_be(ci.loop_predictor);
    let c8 = crate::bytes::spec_i16_be(ci.loop_history_sample1);
    let c9 = crate::bytes::spec_i16_be(ci.loop_history_sample2);
    let c10 = zeros(2);
    let empty = Seq::<u8>::empty();
    AdpcmChannelInformation::lemma_ser_coefs_len(ci.adpcm_coefficients@);
    assert(ci.spec_ser() == c0 + c1 + c2 + c3 + c4 + c5 + c6 + c7 + c8 + c9 + c10);
    assert(s.subrange(off, off + 56) == (c0 + c1 + c2 + c3 + c4 + c5 + c6 + c7 + c8 + c9 + c10)
        + empty + empty) by {
        assert((c0 + c1 + c2 + c3 + c4 + c5 + c6 + c7 + c8 + c9 + c10) + empty + empty =~= ci.spec_ser());
    }
    let region = s.subrange(off, off + 56);
    crate::bytes::lemma_split_pieces(
        region,
        c0,
        c1,
        c2,
        c3,
        c4,
        c5,
        c6,
        c7,
        c8,
        c9,
        c10,
        empty,
        empty,
    );
    assert forall|k: int| 0 <= k < 56 implies #[trigger] s[off + k] == region[k] by {
        assert(region[k] == s[off + k]);
    }
    // every subrange of the region is the matching subrange of the stream
    assert forall|st: int, en: int| 0 <= st <= en <= 56 implies s.subrange(off + st, off + en)
        == #[trigger] region.subrange(st, en) by {
        crate::bytes::lemma_sub_sub(s, off, region, st, en);
    }
    crate::bytes::lemma_read_u32_sub(s, off + 4, ci.channel_adpcm_coefficients_offset);
    assert(s.subrange(off + 8, off + 40) == c2);
    assert forall|j: int| 0 <= j < 16 implies spec_read_i16(s, off + 8 + 2 * j)
        == ci.adpcm_coefficients@[j] by {
        AdpcmChannelInformation::lemma_ser_coefs_index(ci.adpcm_coefficients@, j);
        crate::bytes::lemma_sub_sub(s, off + 8, c2, 2 * j, 2 * j + 2);
        crate::bytes::lemma_read_i16_sub(s, off + 8 + 2 * j, ci.adpcm_coefficients@[j]);
    }
    crate::bytes::lemma_read_i16_sub(s, off + 40, ci.gain);
    crate::bytes::lemma_read_i16_sub(s, off + 42, ci.initial_predictor);
    crate::bytes::lemma_read_i16_sub(s, off + 44, ci.history_sample1);
    crate::bytes::lemma_read_i16_sub(s, off + 46, ci.history_sample2);
    crate::bytes::lemma_read_i16_sub(s, off + 48, ci.loop_predictor);
    crate::bytes::lemma_read_i16_sub(s, off + 50, ci.loop_history_sample1);
    crate::bytes::lemma_read_i16_sub(s, off + 52, ci.loop_history_sample2);
    let p = spec_parse_chan(s, off);
    assert(p.adpcm_coefficients@ =~= ci.adpcm_coefficients@);
    assert(p.adpcm_coefficients =~= ci.adpcm_coefficients);
}

/// The HEAD2 offset table the writer emits.
pub open spec fn spec_head2_entries(m: BrstmModel) -> Seq<TrackInfoOffset> {
    Seq::new(
        m.tracks.len(),
        |i: int|
            TrackInfoOffset {
                track_info_type: if spec_any_v1(m.tracks) {
                    1u8
                } else {
                    0u8
                },
                offset: (spec_track_infos_off(m) + i * spec_track_desc_bytes(m.tracks)
                    - 0x48) as u32,
            },
    )
}

/// The HEAD3 offset table the writer emits.
pub open spec fn spec_head3_entries(m: BrstmModel) -> Seq<ChannelInfoOffset> {
    Seq::new(
        m.channels.len(),
        |i: int| ChannelInfoOffset { offset: (spec_chan_infos_off(m) + i * 56 - 0x48) as u32 },
    )
}

/// Offset of the HEAD1 sub-chunk in a written file.
pub open spec fn spec_head1_off() -> int {
    0x60
}

/// Offset of the HEAD2 sub-chunk in a written file.
pub open spec fn spec_head2_off() -> int {
    0x94
}

/// Offset of the first track description in a written file.
pub open spec fn spec_track_infos_off(m: BrstmModel) -> int {
    0x98 + 8 * (m.tracks.len() as int)
}

/// Offset of the HEAD3 sub-chunk in a written file.
pub open spec fn spec_head3_off(m: BrstmModel) -> int {
    spec_track_infos_off(m) + (m.tracks.len() as int) * spec_track_desc_bytes(m.tracks)
}

/// Offset of the first channel information block in a written file.
pub open spec fn spec_chan_infos_off(m: BrstmModel) -> int {
    spec_head3_off(m) + 4 + 8 * (m.channels.len() as int)
}

/// Offset of the ADPC section in a written file.
pub open spec fn spec_adpc_off(m: BrstmModel) -> int {
    spec_align32(spec_chan_infos_off(m) + 56 * (m.channels.len() as int))
}

/// The stored ADPC section size: payload plus header, padded.
pub open spec fn spec_adpc_size_field(alen: int) -> int {
    spec_align32(alen + 8)
}

/// Offset of the DATA section in a written file.
pub open spec fn spec_data_off(m: BrstmModel, alen: int) -> int {
    spec_align32(spec_adpc_off(m) + spec_adpc_size_field(alen))
}

/// The stored file length of a written file.
pub open spec fn spec_file_length(m: BrstmModel, alen: int, dlen: int) -> int {
    spec_align32(spec_data_off(m, alen) + dlen + 0x20)
}

/// What writing needs: table counts that fit their stored bytes, and a
/// total length that fits the 32-bit offset fields.
pub open spec fn spec_write_wf(m: BrstmModel, alen: int, dlen: int) -> bool {
    &&& m.tracks.len() <= 255
    &&& m.channels.len() <= 255
    &&& alen + 8 <= 0xFFFF_FFE0
    &&& spec_data_off(m, alen) + dlen + 0x20 <= 0xFFFF_FFE0
}

/// The bytes of a written container: all headers with offsets and sizes
/// recomputed from the layout, the two payloads, and zero padding to 32-byte
/// section boundaries.
pub open spec fn spec_write_brstm(m: BrstmModel, adpcm: Seq<u8>, data: Seq<u8>) -> Seq<u8> {
    let t = m.tracks.len() as int;
    let c = m.channels.len() as int;
    let any = spec_any_v1(m.tracks);
    let tiv: u8 = if any {
        1u8
    } else {
        0u8
    };
    let alen = adpcm.len() as int;
    let dlen = data.len() as int;
    let adpc_off = spec_adpc_off(m);
    let asz = spec_adpc_size_field(alen);
    let doff = spec_data_off(m, alen);
    let chan_end = spec_chan_infos_off(m) + 56 * c;
    (BrstmHeader {
        file_length: spec_file_length(m, alen, dlen) as u32,
        head_offset: 0x40,
        head_size: (adpc_off - 0x40) as u32,
        adpc_offset: adpc_off as u32,
        adpc_size: asz as u32,
        data_offset: doff as u32,
        data_size: (dlen + 0x20) as u32,
    }).spec_ser() + (HeadSectionHeader {
        head_chunk_size: (adpc_off - 0x40) as u32,
        head_chunks: [
            HeadChunkOffsets { head_chunk_offset: (spec_head1_off() - 0x48) as u32 },
            HeadChunkOffsets { head_chunk_offset: (spec_head2_off() - 0x48) as u32 },
            HeadChunkOffsets { head_chunk_offset: (spec_head3_off(m) - 0x48) as u32 },
        ],
    }).spec_ser() + (Head1 {
        audio_offset: (doff + 0x20) as u32,
        num_channels: c as u8,
        ..m.info
    }).spec_ser() + (seq![t as u8, tiv, 0u8, 0u8] + Head2::spec_ser_entries(spec_head2_entries(m)))
        + spec_ser_tracks(m.tracks, any) + (seq![c as u8, 0u8, 0u8, 0u8]
        + Head3::spec_ser_entries(spec_head3_entries(m))) + spec_ser_chans(
        m.channels,
        spec_chan_infos_off(m) - 0x48,
    ) + zeros(spec_adpc_off(m) - chan_end) + (AdpcHeader { data_len: asz as u32 }).spec_ser()
        + adpcm + zeros(asz - (alen + 8)) + (DataHeader { data_len: (dlen + 0x20) as u32 }).spec_ser()
        + data
}


/// Whether any track of the list carries the version-1 extension.
fn compute_any_v1(tracks: &Vec<TrackDescription>) -> (r: bool)
    ensures
        r == spec_any_v1(tracks@),
{
    let mut any_v1 = false;
    let nt = tracks.len();
    let mut i: usize = 0;
    while i < nt
        invariant
            i <= nt,
            nt == tracks@.len(),
            any_v1 == exists|j: int| 0 <= j < i && (#[trigger] tracks@[j]).info_v1 is Some,
        decreases nt - i,
    {
        if matches!(tracks[i].info_v1, Some(..)) {
            any_v1 = true;
        }
        i = i + 1;
    }
    any_v1
}

/// Build the HEAD2 offset table: entry `j` points at track description `j`.
fn build_track_info_offsets(
    count: usize,
    track_info_type: u8,
    track_infos_off: u32,
    tdb: u32,
) -> (r: Vec<TrackInfoOffset>)
    requires
        count <= 255,
        tdb <= 12,
        0x48 <= track_infos_off <= 0x10000,
    ensures
        r@.len() == count,
        forall|j: int|
            0 <= j < count ==> r@[j] == (TrackInfoOffset {
                track_info_type,
                offset: (track_infos_off + j * tdb - 0x48) as u32,
            }),
{
    let mut r: Vec<TrackInfoOffset> = Vec::new();
    let mut i: usize = 0;
    while i < count
        invariant
            i <= count,
            count <= 255,
            tdb <= 12,
            0x48 <= track_infos_off <= 0x10000,
            r@.len() == i,
            forall|j: int|
                0 <= j < i ==> r@[j] == (TrackInfoOffset {
                    track_info_type,
                    offset: (track_infos_off + j * tdb - 0x48) as u32,
                }),
        decreases count - i,
    {
        proof {
            assert(i as int * tdb as int <= 255 * 12) by (nonlinear_arith)
                requires
                    0 <= i as int <= 255,
                    0 <= tdb as int <= 12,
            ;
        }
        r.push(
            TrackInfoOffset {
                track_info_type,
                offset: track_infos_off + (i as u32) * tdb - 0x48,
            },
        );
        i = i + 1;
    }
    r
}

/// Build the HEAD3 offset table: entry `j` points at channel information
/// block `j`.
fn build_channel_info_offsets(count: usize, chan_infos_off: u32) -> (r: Vec<ChannelInfoOffset>)
    requires
        count <= 255,
        0x48 <= chan_infos_off <= 0x10000,
    ensures
        r@.len() == count,
        forall|j: int|
            0 <= j < count ==> r@[j] == (ChannelInfoOffset {
                offset: (chan_infos_off + j * 56 - 0x48) as u32,
            }),
{
    let mut r: Vec<ChannelInfoOffset> = Vec::new();
    let mut i: usize = 0;
    while i < count
        invariant
            i <= count,
            count <= 255,
            0x48 <= chan_infos_off <= 0x10000,
            r@.len() == i,
            forall|j: int|
                0 <= j < i ==> r@[j] == (ChannelInfoOffset {
                    offset: (chan_infos_off + j * 56 - 0x48) as u32,
                }),
        decreases count - i,
    {
        r.push(ChannelInfoOffset { offset: chan_infos_off + (i as u32) * 56 - 0x48 });
        i = i + 1;
    }
    r
}

/// Serialize every track description, promoted to the shared version.
fn write_tracks(tracks: &Vec<TrackDescription>, any_v1: bool, out: &mut Vec<u8>)
    requires
        tracks@.len() <= 255,
    ensures
        final(out)@ == old(out)@ + spec_ser_tracks(tracks@, any_v1),
{
    let nt = tracks.len();
    let mut i: usize = 0;
    while i < nt
        invariant
            i <= nt,
            nt == tracks@.len(),
            nt <= 255,
            out@ == old(out)@ + spec_ser_tracks(tracks@.subrange(0, i as int), any_v1),
        decreases nt - i,
    {
        proof {
            lemma_ser_tracks_len(tracks@.subrange(0, i as int), any_v1);
            assert(i as int * (if any_v1 { 12int } else { 4int }) <= 12 * nt)
                by (nonlinear_arith)
                requires
                    0 <= i as int <= nt as int,
            ;
        }
        let src = &tracks[i];
        let info_v1 = if any_v1 {
            match &src.info_v1 {
                Some(v1) => Some(
                    TrackDescriptionV1 {
                        track_volume: v1.track_volume,
                        track_panning: v1.track_panning,
                    },
                ),
                None => Some(TrackDescriptionV1 { track_volume: 127, track_panning: 64 }),
            }
        } else {
            None
        };
        let promoted = TrackDescription { info_v1, channels: src.channels };
        proof {
            assert(promoted == spec_promoted_track(tracks@[i as int], any_v1));
        }
        promoted.write_into(out);
        i = i + 1;
        proof {
            let pre = tracks@.subrange(0, i as int);
            assert(pre.drop_last() =~= tracks@.subrange(0, i - 1));
            assert(out@ =~= old(out)@ + spec_ser_tracks(pre, any_v1));
        }
    }
    proof {
        assert(tracks@.subrange(0, nt as int) =~= tracks@);
    }
}

/// Serialize every channel information block, each with its coefficient
/// offset rewritten to point directly behind its own two leading words.
fn write_channels(chans: &Vec<AdpcmChannelInformation>, chan_infos_off: u32, out: &mut Vec<u8>)
    requires
        chans@.len() <= 255,
        0x48 <= chan_infos_off <= 0x10000,
    ensures
        final(out)@ == old(out)@ + spec_ser_chans(chans@, chan_infos_off - 0x48),
{
    let ncn = chans.len();
    let ghost chan_base = chan_infos_off - 0x48;
    let mut i: usize = 0;
    while i < ncn
        invariant
            i <= ncn,
            ncn == chans@.len(),
            ncn <= 255,
            0x48 <= chan_infos_off <= 0x10000,
            chan_base == chan_infos_off - 0x48,
            out@ == old(out)@ + spec_ser_chans(chans@.subrange(0, i as int), chan_base),
        decreases ncn - i,
    {
        proof {
            lemma_ser_chans_len(chans@.subrange(0, i as int), chan_base);
            assert(i as int * 56 <= 255 * 56);
        }
        let src = &chans[i];
        let emitted = AdpcmChannelInformation {
            channel_adpcm_coefficients_offset: chan_infos_off + (i as u32) * 56 - 0x48 + 8,
            ..*src
        };
        emitted.write_into(out);
        i = i + 1;
        proof {
            let pre = chans@.subrange(0, i as int);
            assert(pre.drop_last() =~= chans@.subrange(0, i - 1));
            assert(emitted == (AdpcmChannelInformation {
                channel_adpcm_coefficients_offset: (chan_base + 56 * (i - 1) + 8) as u32,
                ..pre.last()
            }));
            assert(out@ =~= old(out)@ + spec_ser_chans(pre, chan_base));
        }
    }
    proof {
        assert(chans@.subrange(0, ncn as int) =~= chans@);
    }
}

impl BrstmInformation {
    /// Serialize the container: plan every offset from the current metadata
    /// and the payload lengths, and emit headers, payloads and padding so
    /// that each section starts 32-byte aligned. The header fields, the
    /// stream info's audio offset and channel count, and every intra-HEAD
    /// offset are recomputed from the layout, never copied from a parse.
    #[verifier::rlimit(100)]
    #[verifier::spinoff_prover]
    pub fn write_brstm(&self, adpcm_bytes: &[u8], data_bytes: &[u8]) -> (r: Vec<u8>)
        requires
            spec_write_wf(self@, adpcm_bytes@.len() as int, data_bytes@.len() as int),
        ensures
            r@ == spec_write_brstm(self@, adpcm_bytes@, data_bytes@),
    {
        let ghost m = self@;
        let ghost alen_g = adpcm_bytes@.len() as int;
        let ghost dlen_g = data_bytes@.len() as int;
        let t: u32 = self.tracks.len() as u32;
        let c: u32 = self.channels.len() as u32;
        let any_v1 = compute_any_v1(&self.tracks);
        let track_desc_bytes: u32 = if any_v1 {
            12
        } else {
            4
        };
        let track_info_type: u8 = if any_v1 {
            1
        } else {
            0
        };

        let alen: u32 = adpcm_bytes.len() as u32;
        let dlen: u32 = data_bytes.len() as u32;
        proof {
            crate::bytes::lemma_align32(spec_chan_infos_off(m) + 56 * (m.channels.len() as int));
            crate::bytes::lemma_align32(alen_g + 8);
            crate::bytes::lemma_align32(spec_adpc_off(m) + spec_adpc_size_field(alen_g));
            crate::bytes::lemma_align32(spec_data_off(m, alen_g) + dlen_g + 0x20);
        }
        let head_header_off: u32 = 0x40;
        let head1_off: u32 = 0x60;
        let head2_off: u32 = 0x94;
        let track_infos_off: u32 = 0x98 + 8 * t;
        let head3_off: u32 = track_infos_off + t * track_desc_bytes;
        let chan_infos_off: u32 = head3_off + 4 + 8 * c;
        let chan_end: u32 = chan_infos_off + 56 * c;
        let adpc_off: u32 = crate::bytes::align_next_32(chan_end);
        let adpc_size: u32 = crate::bytes::align_next_32(alen + 8);
        let data_off: u32 = crate::bytes::align_next_32(adpc_off + adpc_size);
        let file_length: u32 = crate::bytes::align_next_32(data_off + dlen + 0x20);
        proof {
            assert(track_infos_off == spec_track_infos_off(m));
            assert(head3_off == spec_head3_off(m));
            assert(chan_infos_off == spec_chan_infos_off(m));
            assert(adpc_off == spec_adpc_off(m));
            assert(adpc_size == spec_adpc_size_field(alen_g));
            assert(data_off == spec_data_off(m, alen_g));
            assert(file_length == spec_file_length(m, alen_g, dlen_g));
        }

        let mut out: Vec<u8> = Vec::new();
        let header = BrstmHeader {
            file_length,
            head_offset: head_header_off,
            head_size: adpc_off - head_header_off,
            adpc_offset: adpc_off,
            adpc_size,
            data_offset: data_off,
            data_size: dlen + 0x20,
        };
        header.write_into(&mut out);

        let head_section = HeadSectionHeader {
            head_chunk_size: adpc_off - head_header_off,
            head_chunks: [
                HeadChunkOffsets { head_chunk_offset: head1_off - head_header_off - 8 },
                HeadChunkOffsets { head_chunk_offset: head2_off - head_header_off - 8 },
                HeadChunkOffsets { head_chunk_offset: head3_off - head_header_off - 8 },
            ],
        };
        head_section.write_into(&mut out);

        let head1 = Head1 { audio_offset: data_off + 0x20, num_channels: c as u8, ..self.info };
        head1.write_into(&mut out);

        let track_info_offsets = build_track_info_offsets(
            self.tracks.len(),
            track_info_type,
            track_infos_off,
            track_desc_bytes,
        );
        let head2 = Head2 { track_info_type, track_info_offsets };
        proof {
            assert(head2.track_info_offsets@ =~= spec_head2_entries(m));
        }
        proof {
            Head2::lemma_ser_entries_len(head2.track_info_offsets@);
        }
        head2.write_into(&mut out);
        proof {
            assert(out@.len() == spec_track_infos_off(m));
        }

        write_tracks(&self.tracks, any_v1, &mut out);
        proof {
            lemma_ser_tracks_len(m.tracks, any_v1);
            assert(out@.len() == spec_head3_off(m));
        }

        let channel_info_offs = build_channel_info_offsets(self.channels.len(), chan_infos_off);
        let head3 = Head3 { info_offsets: channel_info_offs };
        proof {
            assert(head3.info_offsets@ =~= spec_head3_entries(m));
            Head3::lemma_ser_entries_len(head3.info_offsets@);
        }
        head3.write_into(&mut out);
        proof {
            assert(out@.len() == spec_chan_infos_off(m));
        }

        write_channels(&self.channels, chan_infos_off, &mut out);
        proof {
            lemma_ser_chans_len(m.channels, spec_chan_infos_off(m) - 0x48);
            assert(out@.len() == spec_chan_infos_off(m) + 56 * (m.channels.len() as int));
        }

        push_zeros(&mut out, (adpc_off - chan_end) as usize);

        let adpc_header = AdpcHeader { data_len: adpc_size };
        adpc_header.write_into(&mut out);
        push_bytes(&mut out, adpcm_bytes);
        push_zeros(&mut out, (adpc_size - (alen + 8)) as usize);

        let data_header = DataHeader { data_len: dlen + 0x20 };
        data_header.write_into(&mut out);
        push_bytes(&mut out, data_bytes);

        proof {
            assert(out@ =~= spec_write_brstm(m, adpcm_bytes@, data_bytes@));
        }
        out
    }
}

/// The channel information record a parse yields at `off`.
pub open spec fn spec_parse_chan(s: Seq<u8>, off: int) -> AdpcmChannelInformation {
    AdpcmChannelInformation {
        channel_adpcm_coefficients_offset: spec_read_u32(s, off + 4) as u32,
        adpcm_coefficients: [
            spec_read_i16(s, off + 8),
            spec_read_i16(s, off + 10),
            spec_read_i16(s, off + 12),
            spec_read_i16(s, off + 14),
            spec_read_i16(s, off + 16),
            spec_read_i16(s, off + 18),
            spec_read_i16(s, off + 20),
            spec_read_i16(s, off + 22),
            spec_read_i16(s, off + 24),
            spec_read_i16(s, off + 26),
            spec_read_i16(s, off + 28),
            spec_read_i16(s, off + 30),
            spec_read_i16(s, off + 32),
            spec_read_i16(s, off + 34),
            spec_read_i16(s, off + 36),
            spec_read_i16(s, off + 38),
        ],
        gain: spec_read_i16(s, off + 40),
        initial_predictor: spec_read_i16(s, off + 42),
        history_sample1: spec_read_i16(s, off + 44),
        history_sample2: spec_read_i16(s, off + 46),
        loop_predictor: spec_read_i16(s, off + 48),
        loop_history_sample1: spec_read_i16(s, off + 50),
        loop_history_sample2: spec_read_i16(s, off + 52),
    }
}

/// What a parse of a whole container yields: `None` where any check or
/// bound fails, else the model. The payload locations record the section
/// bodies behind the ADPC and DATA headers.
pub open spec fn spec_parse_brstm(s: Seq<u8>) -> Option<BrstmModel> {
    if !BrstmHeader::spec_can_parse(s, 0) {
        None
    } else {
        let hdr = BrstmHeader::spec_parse(s, 0);
        if !HeadSectionHeader::spec_can_parse(s, hdr.head_offset as int) {
            None
        } else {
            let hs = HeadSectionHeader::spec_parse(s, hdr.head_offset as int);
            let base = hdr.head_offset + 8;
            let h1off = base + hs.head_chunks@[0].head_chunk_offset;
            let h2off = base + hs.head_chunks@[1].head_chunk_offset;
            let h3off = base + hs.head_chunks@[2].head_chunk_offset;
            if !Head1::spec_can_parse(s, h1off as int) || !Head2::spec_can_parse(s, h2off as int)
                || !Head3::spec_can_parse(s, h3off as int) {
                None
            } else {
                let head1 = Head1::spec_parse(s, h1off as int);
                let tiv = s[h2off as int + 1];
                let h2entries = Head2::spec_parse_entries(s, h2off as int);
                let h3entries = Head3::spec_parse_entries(s, h3off as int);
                if !(forall|i: int|
                    0 <= i < h3entries.len() ==> base + (#[trigger] h3entries[i]).offset + 56
                        <= s.len()) {
                    None
                } else if !(forall|i: int|
                    0 <= i < h2entries.len() ==> (#[trigger] h2entries[i]).track_info_type == tiv
                        && base + h2entries[i].offset + (if tiv == 1 {
                        12int
                    } else {
                        4int
                    }) <= s.len()) {
                    None
                } else if hdr.adpc_size < 8 || hdr.data_size < 0x20 || hdr.adpc_offset + 8
                    > 0xFFFF_FFFF || hdr.data_offset + 0x20 > 0xFFFF_FFFF {
                    None
                } else {
                    Some(
                        BrstmModel {
                            info: head1,
                            tracks: Seq::new(
                                h2entries.len(),
                                |i: int|
                                    TrackDescription::spec_parse(
                                        s,
                                        base + h2entries[i].offset,
                                        tiv,
                                    ),
                            ),
                            channels: Seq::new(
                                h3entries.len(),
                                |i: int| spec_parse_chan(s, base + h3entries[i].offset),
                            ),
                            adpcm_offset: (hdr.adpc_offset + 8) as u32,
                            adpcm_size: (hdr.adpc_size - 8) as u32,
                            data_offset: (hdr.data_offset + 0x20) as u32,
                            data_size: (hdr.data_size - 0x20) as u32,
                        },
                    )
                }
            }
        }
    }
}

impl BrstmInformation {
    /// Parse a container from its bytes: the file header, the HEAD section
    /// with its three sub-chunks, every track description (checking each
    /// stored type against the section-wide one) and every channel
    /// information block. Payload bytes are not touched; their location is
    /// recorded for `into_with_data`.
    #[verifier::rlimit(100)]
    #[verifier::spinoff_prover]
    pub fn from_reader(data: &[u8]) -> (r: Result<BrstmInformation, ParseError>)
        ensures
            r is Ok <==> spec_parse_brstm(data@) is Some,
            r matches Ok(b) ==> Some(b@) == spec_parse_brstm(data@),
    {
        let limit = data.len();
        let hdr = match BrstmHeader::parse(data, 0) {
            Ok(h) => h,
            Err(e) => {
                return Err(e);
            },
        };
        let hs = match HeadSectionHeader::parse(data, hdr.head_offset as usize) {
            Ok(h) => h,
            Err(e) => {
                return Err(e);
            },
        };
        let base: usize = hdr.head_offset as usize + 8;
        let c0 = hs.head_chunks[0].head_chunk_offset as usize;
        let c1 = hs.head_chunks[1].head_chunk_offset as usize;
        let c2 = hs.head_chunks[2].head_chunk_offset as usize;
        if c0 > limit || base > limit - c0 {
            return Err(ParseError { pos: base, kind: ParseErrorKind::OutOfRange });
        }
        if c1 > limit || base > limit - c1 {
            return Err(ParseError { pos: base, kind: ParseErrorKind::OutOfRange });
        }
        if c2 > limit || base > limit - c2 {
            return Err(ParseError { pos: base, kind: ParseErrorKind::OutOfRange });
        }
        let h1off = base + c0;
        let h2off = base + c1;
        let h3off = base + c2;
        let head1 = match Head1::parse(data, h1off) {
            Ok(h) => h,
            Err(e) => {
                return Err(e);
            },
        };
        let head2 = match Head2::parse(data, h2off) {
            Ok(h) => h,
            Err(e) => {
                return Err(e);
            },
        };
        let head3 = match Head3::parse(data, h3off) {
            Ok(h) => h,
            Err(e) => {
                return Err(e);
            },
        };
        let ghost h2entries = Head2::spec_parse_entries(data@, h2off as int);
        let ghost h3entries = Head3::spec_parse_entries(data@, h3off as int);

        let ncn = head3.info_offsets.len();
        let mut chan_fail = false;
        let ghost mut chan_wit: int = 0;
        let mut i: usize = 0;
        while i < ncn
            invariant
                i <= ncn,
                limit == data@.len(),
                base <= limit,
                ncn == h3entries.len(),
                head3.info_offsets@ == h3entries,
                !chan_fail ==> forall|j: int|
                    0 <= j < i ==> base + (#[trigger] h3entries[j]).offset + 56 <= limit,
                chan_fail ==> 0 <= chan_wit < ncn && base + h3entries[chan_wit].offset + 56
                    > limit,
            decreases ncn - i,
        {
            if !chan_fail {
                let entry_off = head3.info_offsets[i].offset as usize;
                if entry_off > limit || base > limit - entry_off || limit - (base + entry_off) < 56 {
                    chan_fail = true;
                    proof {
                        chan_wit = i as int;
                    }
                }
            }
            i = i + 1;
        }
        if chan_fail {
            proof {
                assert(base + h3entries[chan_wit].offset + 56 > data@.len());
                assert(spec_parse_brstm(data@) is None);
            }
            return Err(ParseError { pos: base, kind: ParseErrorKind::OutOfRange });
        }

        let nt = head2.track_info_offsets.len();
        let mut track_fail = false;
        let mut track_kind = ParseErrorKind::OutOfRange;
        let ghost mut track_wit: int = 0;
        let tdesc_len: usize = if head2.track_info_type == 1 {
            12
        } else {
            4
        };
        let mut i: usize = 0;
        while i < nt
            invariant
                i <= nt,
                limit == data@.len(),
                base <= limit,
                nt == h2entries.len(),
                head2.track_info_offsets@ == h2entries,
                tdesc_len == (if head2.track_info_type == 1 {
                    12int
                } else {
                    4int
                }),
                !track_fail ==> forall|j: int|
                    0 <= j < i ==> (#[trigger] h2entries[j]).track_info_type
                        == head2.track_info_type && base + h2entries[j].offset + (
                    if head2.track_info_type == 1 {
                        12int
                    } else {
                        4int
                    }) <= limit,
                track_fail ==> 0 <= track_wit < nt && (h2entries[track_wit].track_info_type
                    != head2.track_info_type || base + h2entries[track_wit].offset + (
                if head2.track_info_type == 1 {
                    12int
                } else {
                    4int
                }) > limit),
            decreases nt - i,
        {
            if !track_fail {
                let entry = &head2.track_info_offsets[i];
                if entry.track_info_type != head2.track_info_type {
                    track_fail = true;
                    track_kind = ParseErrorKind::TrackTypeMismatch;
                    proof {
                        track_wit = i as int;
                    }
                } else {
                    let entry_off = entry.offset as usize;
                    if entry_off > limit || base > limit - entry_off || limit - (base
                        + entry_off) < tdesc_len {
                        track_fail = true;
                        proof {
                            track_wit = i as int;
                        }
                    }
                }
            }
            i = i + 1;
        }
        if track_fail {
            proof {
                assert(spec_parse_brstm(data@) is None);
            }
            return Err(ParseError { pos: base, kind: track_kind });
        }

        // all table entries are in range; read them
        let mut channels: Vec<AdpcmChannelInformation> = Vec::new();
        let mut i: usize = 0;
        while i < ncn
            invariant
                i <= ncn,
                limit == data@.len(),
                base <= limit,
                ncn == h3entries.len(),
                head3.info_offsets@ == h3entries,
                channels@.len() == i,
                forall|j: int|
                    0 <= j < ncn ==> base + (#[trigger] h3entries[j]).offset + 56 <= limit,
                forall|j: int|
                    0 <= j < i ==> channels@[j] == spec_parse_chan(
                        data@,
                        base + h3entries[j].offset,
                    ),
            decreases ncn - i,
        {
            let entry_off = head3.info_offsets[i].offset as usize;
            let chan = match AdpcmChannelInformation::parse(data, base + entry_off) {
                Ok(c) => c,
                Err(e) => {
                    proof {
                        assert(false);
                    }
                    return Err(e);
                },
            };
            proof {
                assert(chan == spec_parse_chan(data@, base + h3entries[i as int].offset)) by {
                    assert(chan.adpcm_coefficients@ == AdpcmChannelInformation::spec_parse_coefs(
                        data@,
                        base + h3entries[i as int].offset,
                    ));
                    assert(chan.adpcm_coefficients =~= spec_parse_chan(
                        data@,
                        base + h3entries[i as int].offset,
                    ).adpcm_coefficients);
                }
            }
            channels.push(chan);
            i = i + 1;
        }

        let mut tracks: Vec<TrackDescription> = Vec::new();
        let mut i: usize = 0;
        while i < nt
            invariant
                i <= nt,
                limit == data@.len(),
                base <= limit,
                nt == h2entries.len(),
                head2.track_info_offsets@ == h2entries,
                tracks@.len() == i,
                forall|j: int|
                    0 <= j < nt ==> (#[trigger] h2entries[j]).track_info_type
                        == head2.track_info_type && base + h2entries[j].offset + (
                    if head2.track_info_type == 1 {
                        12int
                    } else {
                        4int
                    }) <= limit,
                forall|j: int|
                    0 <= j < i ==> tracks@[j] == TrackDescription::spec_parse(
                        data@,
                        base + h2entries[j].offset,
                        head2.track_info_type,
                    ),
            decreases nt - i,
        {
            let entry_off = head2.track_info_offsets[i].offset as usize;
            let track = match TrackDescription::parse(data, base + entry_off, head2.track_info_type)
                {
                Ok(t) => t,
                Err(e) => {
                    proof {
                        assert(false);
                    }
                    return Err(e);
                },
            };
            tracks.push(track);
            i = i + 1;
        }

        if hdr.adpc_size < 8 || hdr.data_size < 0x20 {
            return Err(ParseError { pos: 0, kind: ParseErrorKind::OutOfRange });
        }
        if hdr.adpc_offset > 0xFFFF_FFFF - 8 || hdr.data_offset > 0xFFFF_FFFF - 0x20 {
            return Err(ParseError { pos: 0, kind: ParseErrorKind::OutOfRange });
        }
        let r = BrstmInformation {
            info: head1,
            tracks,
            channels,
            adpcm_offset: hdr.adpc_offset + 8,
            adpcm_size: hdr.adpc_size - 8,
            data_offset: hdr.data_offset + 0x20,
            data_size: hdr.data_size - 0x20,
        };
        proof {
            let m = spec_parse_brstm(data@)->0;
            assert(r@.tracks =~= m.tracks);
            assert(r@.channels =~= m.channels);
        }
        Ok(r)
    }

    /// Extract the two payload bodies from the source bytes the container
    /// was parsed from, yielding a self-contained value.
    pub fn into_with_data(self, data: &[u8]) -> (r: Result<BrstmInfoWithData, ParseError>)
        ensures
            r is Ok <==> self.adpcm_offset + self.adpcm_size <= data@.len() && self.data_offset
                + self.data_size <= data@.len(),
            r matches Ok(w) ==> w.info == self && w.adpcm_bytes@ == data@.subrange(
                self.adpcm_offset as int,
                self.adpcm_offset + self.adpcm_size,
            ) && w.data_bytes@ == data@.subrange(
                self.data_offset as int,
                self.data_offset + self.data_size,
            ),
    {
        let limit = data.len();
        if self.adpcm_size as usize > limit || self.adpcm_offset as usize > limit
            - self.adpcm_size as usize {
            return Err(
                ParseError { pos: self.adpcm_offset as usize, kind: ParseErrorKind::OutOfRange },
            );
        }
        if self.data_size as usize > limit || self.data_offset as usize > limit
            - self.data_size as usize {
            return Err(
                ParseError { pos: self.data_offset as usize, kind: ParseErrorKind::OutOfRange },
            );
        }
        let mut adpcm_bytes: Vec<u8> = Vec::new();
        push_bytes(
            &mut adpcm_bytes,
            &data[self.adpcm_offset as usize..self.adpcm_offset as usize
                + self.adpcm_size as usize],
        );
        let mut data_bytes: Vec<u8> = Vec::new();
        push_bytes(
            &mut data_bytes,
            &data[self.data_offset as usize..self.data_offset as usize + self.data_size as usize],
        );
        Ok(BrstmInfoWithData { info: self, adpcm_bytes, data_bytes })
    }
}

/// Where each piece of a written file lies: the bytes of
/// `spec_write_brstm` taken apart again, section by section.
#[verifier::rlimit(100)]
#[verifier::spinoff_prover]
pub proof fn lemma_write_layout(m: BrstmModel, adpcm: Seq<u8>, data: Seq<u8>)
    requires
        spec_write_wf(m, adpcm.len() as int, data.len() as int),
    ensures
        ({
            let bytes = spec_write_brstm(m, adpcm, data);
            let t = m.tracks.len() as int;
            let c = m.channels.len() as int;
            let any = spec_any_v1(m.tracks);
            let tiv: u8 = if any {
                1u8
            } else {
                0u8
            };
            let alen = adpcm.len() as int;
            let dlen = data.len() as int;
            let adpc_off = spec_adpc_off(m);
            let asz = spec_adpc_size_field(alen);
            let doff = spec_data_off(m, alen);
            let chan_end = spec_chan_infos_off(m) + 56 * c;
            &&& bytes.len() == doff + 0x20 + dlen
            &&& bytes.subrange(0, 0x40) == (BrstmHeader {
                file_length: spec_file_length(m, alen, dlen) as u32,
                head_offset: 0x40,
                head_size: (adpc_off - 0x40) as u32,
                adpc_offset: adpc_off as u32,
                adpc_size: asz as u32,
                data_offset: doff as u32,
                data_size: (dlen + 0x20) as u32,
            }).spec_ser()
            &&& bytes.subrange(0x40, 0x60) == (HeadSectionHeader {
                head_chunk_size: (adpc_off - 0x40) as u32,
                head_chunks: [
                    HeadChunkOffsets { head_chunk_offset: (spec_head1_off() - 0x48) as u32 },
                    HeadChunkOffsets { head_chunk_offset: (spec_head2_off() - 0x48) as u32 },
                    HeadChunkOffsets { head_chunk_offset: (spec_head3_off(m) - 0x48) as u32 },
                ],
            }).spec_ser()
            &&& bytes.subrange(0x60, 0x94) == (Head1 {
                audio_offset: (doff + 0x20) as u32,
                num_channels: c as u8,
                ..m.info
            }).spec_ser()
            &&& bytes.subrange(0x94, spec_track_infos_off(m)) == seq![t as u8, tiv, 0u8, 0u8]
                + Head2::spec_ser_entries(spec_head2_entries(m))
            &&& bytes.subrange(spec_track_infos_off(m), spec_head3_off(m)) == spec_ser_tracks(
                m.tracks,
                any,
            )
            &&& bytes.subrange(spec_head3_off(m), spec_chan_infos_off(m)) == seq![
                c as u8,
                0u8,
                0u8,
                0u8,
            ] + Head3::spec_ser_entries(spec_head3_entries(m))
            &&& bytes.subrange(spec_chan_infos_off(m), chan_end) == spec_ser_chans(
                m.channels,
                spec_chan_infos_off(m) - 0x48,
            )
            &&& bytes.subrange(adpc_off, adpc_off + 8) == (AdpcHeader {
                data_len: asz as u32,
            }).spec_ser()
            &&& bytes.subrange(adpc_off + 8, adpc_off + 8 + alen) == adpcm
            &&& bytes.subrange(adpc_off + 8 + alen, adpc_off + asz) == zeros(asz - (alen + 8))
            &&& bytes.subrange(doff, doff + 0x20) == (DataHeader {
                data_len: (dlen + 0x20) as u32,
            }).spec_ser()
            &&& bytes.subrange(doff + 0x20, doff + 0x20 + dlen) == data
        }),
{
    let bytes = spec_write_brstm(m, adpcm, data);
    let t = m.tracks.len() as int;
    let c = m.channels.len() as int;
    let any = spec_any_v1(m.tracks);
    let tiv: u8 = if any {
        1u8
    } else {
        0u8
    };
    let alen = adpcm.len() as int;
    let dlen = data.len() as int;
    let adpc_off = spec_adpc_off(m);
    let asz = spec_adpc_size_field(alen);
    let doff = spec_data_off(m, alen);
    let chan_end = spec_chan_infos_off(m) + 56 * c;
    crate::bytes::lemma_align32(spec_chan_infos_off(m) + 56 * (m.channels.len() as int));
    crate::bytes::lemma_align32(alen + 8);
    crate::bytes::lemma_align32(adpc_off + asz);
    crate::bytes::lemma_align32(doff + dlen + 0x20);
    let c0 = (BrstmHeader {
        file_length: spec_file_length(m, alen, dlen) as u32,
        head_offset: 0x40,
        head_size: (adpc_off - 0x40) as u32,
        adpc_offset: adpc_off as u32,
        adpc_size: asz as u32,
        data_offset: doff as u32,
        data_size: (dlen + 0x20) as u32,
    }).spec_ser();
    let c1 = (HeadSectionHeader {
        head_chunk_size: (adpc_off - 0x40) as u32,
        head_chunks: [
            HeadChunkOffsets { head_chunk_offset: (spec_head1_off() - 0x48) as u32 },
            HeadChunkOffsets { head_chunk_offset: (spec_head2_off() - 0x48) as u32 },
            HeadChunkOffsets { head_chunk_offset: (spec_head3_off(m) - 0x48) as u32 },
        ],
    }).spec_ser();
    let c2 = (Head1 { audio_offset: (doff + 0x20) as u32, num_channels: c as u8, ..m.info }).spec_ser();
    let c3 = seq![t as u8, tiv, 0u8, 0u8] + Head2::spec_ser_entries(spec_head2_entries(m));
    let c4 = spec_ser_tracks(m.tracks, any);
    let c5 = seq![c as u8, 0u8, 0u8, 0u8] + Head3::spec_ser_entries(spec_head3_entries(m));
    let c6 = spec_ser_chans(m.channels, spec_chan_infos_off(m) - 0x48);
    let c7 = zeros(adpc_off - chan_end);
    let c8 = (AdpcHeader { data_len: asz as u32 }).spec_ser();
    let c9 = adpcm;
    let c10 = zeros(asz - (alen + 8));
    let c11 = (DataHeader { data_len: (dlen + 0x20) as u32 }).spec_ser();
    let c12 = data;
    assert(bytes == c0 + c1 + c2 + c3 + c4 + c5 + c6 + c7 + c8 + c9 + c10 + c11 + c12);
    Head2::lemma_ser_entries_len(spec_head2_entries(m));
    Head3::lemma_ser_entries_len(spec_head3_entries(m));
    lemma_ser_tracks_len(m.tracks, any);
    lemma_ser_chans_len(m.channels, spec_chan_infos_off(m) - 0x48);
    assert(c0.len() == 0x40 && c1.len() == 0x20 && c2.len() == 52);
    assert(c3.len() == 4 + 8 * t);
    assert(c4.len() == t * spec_track_desc_bytes(m.tracks));
    assert(c5.len() == 4 + 8 * c);
    assert(c6.len() == 56 * c);
    assert(c7.len() == adpc_off - chan_end);
    assert(c8.len() == 8 && c9.len() == alen && c10.len() == asz - (alen + 8));
    assert(c11.len() == 0x20 && c12.len() == dlen);
    crate::bytes::lemma_split_pieces(
        bytes,
        c0,
        c1,
        c2,
        c3,
        c4,
        c5,
        c6,
        c7,
        c8,
        c9,
        c10,
        c11,
        c12,
    );
}

/// The stored section sizes of a written file are the header-derived
/// formulas: with the canonical payload sizes of the block layout, the ADPC
/// size is the aligned seek-table size and the DATA size is the layout size
/// plus its header.
pub proof fn lemma_header_derived_lengths(m: BrstmModel, adpcm: Seq<u8>, data: Seq<u8>)
    requires
        spec_write_wf(m, adpcm.len() as int, data.len() as int),
        adpcm.len() == 4 * m.info.total_blocks * m.info.num_channels,
        data.len() == spec_data_layout_len(m.info),
    ensures
        ({
            let bytes = spec_write_brstm(m, adpcm, data);
            let hdr = BrstmHeader::spec_parse(bytes, 0);
            &&& BrstmHeader::spec_can_parse(bytes, 0)
            &&& hdr.adpc_size == spec_align32(
                4 * m.info.total_blocks * m.info.num_channels + 8,
            )
            &&& hdr.data_size == spec_data_layout_len(m.info) + 0x20
        }),
{
    let bytes = spec_write_brstm(m, adpcm, data);
    lemma_write_layout(m, adpcm, data);
    let alen = adpcm.len() as int;
    let dlen = data.len() as int;
    let hdr = BrstmHeader {
        file_length: spec_file_length(m, alen, dlen) as u32,
        head_offset: 0x40,
        head_size: (spec_adpc_off(m) - 0x40) as u32,
        adpc_offset: spec_adpc_off(m) as u32,
        adpc_size: spec_adpc_size_field(alen) as u32,
        data_offset: spec_data_off(m, alen) as u32,
        data_size: (dlen + 0x20) as u32,
    };
    crate::bytes::lemma_align32(alen + 8);
    BrstmHeader::lemma_parse_of_ser(hdr, bytes, 0);
}


/// Track `i`'s bytes within the serialized track descriptions.
proof fn lemma_ser_tracks_index(ts: Seq<TrackDescription>, any_v1: bool, i: int)
    requires
        0 <= i < ts.len(),
    ensures
        ({
            let tdb = if any_v1 {
                12int
            } else {
                4int
            };
            spec_ser_tracks(ts, any_v1).subrange(i * tdb, (i + 1) * tdb) == spec_promoted_track(
                ts[i],
                any_v1,
            ).spec_ser()
        }),
    decreases ts.len(),
{
    let tdb = if any_v1 {
        12int
    } else {
        4int
    };
    lemma_ser_tracks_len(ts, any_v1);
    lemma_ser_tracks_len(ts.drop_last(), any_v1);
    if i == ts.len() - 1 {
        assert(spec_ser_tracks(ts, any_v1).subrange(i * tdb, (i + 1) * tdb) =~= spec_promoted_track(
            ts[i],
            any_v1,
        ).spec_ser());
    } else {
        lemma_ser_tracks_index(ts.drop_last(), any_v1, i);
        assert(spec_ser_tracks(ts, any_v1).subrange(i * tdb, (i + 1) * tdb) =~= spec_ser_tracks(
            ts.drop_last(),
            any_v1,
        ).subrange(i * tdb, (i + 1) * tdb));
    }
}

/// Channel `i`'s bytes within the serialized channel information blocks.
proof fn lemma_ser_chans_index(cs: Seq<AdpcmChannelInformation>, base: int, i: int)
    requires
        0 <= i < cs.len(),
    ensures
        spec_ser_chans(cs, base).subrange(56 * i, 56 * i + 56) == (AdpcmChannelInformation {
            channel_adpcm_coefficients_offset: (base + 56 * i + 8) as u32,
            ..cs[i]
        }).spec_ser(),
    decreases cs.len(),
{
    lemma_ser_chans_len(cs, base);
    lemma_ser_chans_len(cs.drop_last(), base);
    let entry = (AdpcmChannelInformation {
        channel_adpcm_coefficients_offset: (base + 56 * i + 8) as u32,
        ..cs[i]
    });
    AdpcmChannelInformation::lemma_ser_coefs_len(entry.adpcm_coefficients@);
    if i == cs.len() - 1 {
        assert(spec_ser_chans(cs, base).subrange(56 * i, 56 * i + 56) =~= entry.spec_ser());
    } else {
        lemma_ser_chans_index(cs.drop_last(), base, i);
        assert(spec_ser_chans(cs, base).subrange(56 * i, 56 * i + 56) =~= spec_ser_chans(
            cs.drop_last(),
            base,
        ).subrange(56 * i, 56 * i + 56));
    }
}

/// Each written track description parses back to the promoted track.
proof fn lemma_parse_written_tracks(m: BrstmModel, s: Seq<u8>)
    requires
        m.tracks.len() <= 255,
        spec_head3_off(m) <= s.len(),
        s.subrange(spec_track_infos_off(m), spec_head3_off(m)) == spec_ser_tracks(
            m.tracks,
            spec_any_v1(m.tracks),
        ),
    ensures
        forall|i: int|
            0 <= i < m.tracks.len() ==> TrackDescription::spec_can_parse(
                s,
                spec_track_infos_off(m) + i * spec_track_desc_bytes(m.tracks),
                if spec_any_v1(m.tracks) {
                    1u8
                } else {
                    0u8
                },
            ) && TrackDescription::spec_parse(
                s,
                spec_track_infos_off(m) + i * spec_track_desc_bytes(m.tracks),
                if spec_any_v1(m.tracks) {
                    1u8
                } else {
                    0u8
                },
            ) == #[trigger] spec_promoted_track(m.tracks[i], spec_any_v1(m.tracks)),
{
    let any = spec_any_v1(m.tracks);
    let tdb = spec_track_desc_bytes(m.tracks);
    let ti_off = spec_track_infos_off(m);
    let region = spec_ser_tracks(m.tracks, any);
    lemma_ser_tracks_len(m.tracks, any);
    assert forall|i: int| 0 <= i < m.tracks.len() implies TrackDescription::spec_can_parse(
        s,
        ti_off + i * tdb,
        if any {
            1u8
        } else {
            0u8
        },
    ) && TrackDescription::spec_parse(
        s,
        ti_off + i * tdb,
        if any {
            1u8
        } else {
            0u8
        },
    ) == #[trigger] spec_promoted_track(m.tracks[i], any) by {
        let pt = spec_promoted_track(m.tracks[i], any);
        assert(i * tdb >= 0 && (i + 1) * tdb <= m.tracks.len() * tdb && i * tdb + tdb == (i + 1)
            * tdb) by (nonlinear_arith)
            requires
                0 <= i,
                i + 1 <= m.tracks.len(),
                tdb >= 0,
        ;
        lemma_ser_tracks_index(m.tracks, any, i);
        crate::bytes::lemma_sub_sub(s, ti_off, region, i * tdb, (i + 1) * tdb);
        assert(region.subrange(i * tdb, (i + 1) * tdb) == pt.spec_ser());
        assert(pt.spec_byte_len() == tdb);
        assert(pt.spec_version() == (if any {
            1u8
        } else {
            0u8
        }));
        TrackDescription::lemma_parse_of_ser(pt, s, ti_off + i * tdb);
    }
}

/// Each written channel information block parses back to the channel with
/// its rewritten coefficient offset.
proof fn lemma_parse_written_chans(m: BrstmModel, s: Seq<u8>)
    requires
        m.channels.len() <= 255,
        spec_chan_infos_off(m) + 56 * m.channels.len() <= s.len(),
        s.subrange(spec_chan_infos_off(m), spec_chan_infos_off(m) + 56 * m.channels.len())
            == spec_ser_chans(m.channels, spec_chan_infos_off(m) - 0x48),
    ensures
        forall|i: int|
            0 <= i < m.channels.len() ==> #[trigger] spec_parse_chan(
                s,
                spec_chan_infos_off(m) + 56 * i,
            ) == (AdpcmChannelInformation {
                channel_adpcm_coefficients_offset: (spec_chan_infos_off(m) - 0x48 + 56 * i
                    + 8) as u32,
                ..m.channels[i]
            }),
{
    let chanoff = spec_chan_infos_off(m);
    let base = chanoff - 0x48;
    let region = spec_ser_chans(m.channels, base);
    lemma_ser_chans_len(m.channels, base);
    assert forall|i: int| 0 <= i < m.channels.len() implies #[trigger] spec_parse_chan(
        s,
        chanoff + 56 * i,
    ) == (AdpcmChannelInformation {
        channel_adpcm_coefficients_offset: (base + 56 * i + 8) as u32,
        ..m.channels[i]
    }) by {
        assert(56 * i >= 0 && 56 * i + 56 <= 56 * m.channels.len()) by (nonlinear_arith)
            requires
                0 <= i,
                i + 1 <= m.channels.len(),
        ;
        lemma_ser_chans_index(m.channels, base, i);
        crate::bytes::lemma_sub_sub(s, chanoff, region, 56 * i, 56 * i + 56);
        lemma_parse_chan_of_ser(
            AdpcmChannelInformation {
                channel_adpcm_coefficients_offset: (base + 56 * i + 8) as u32,
                ..m.channels[i]
            },
            s,
            chanoff + 56 * i,
        );
    }
}

/// Each written HEAD2 table entry parses back to itself.
proof fn lemma_parse_written_h2entries(m: BrstmModel, s: Seq<u8>)
    requires
        m.tracks.len() <= 255,
        spec_track_infos_off(m) <= s.len(),
        s.subrange(0x98, spec_track_infos_off(m)) == Head2::spec_ser_entries(
            spec_head2_entries(m),
        ),
    ensures
        forall|i: int|
            0 <= i < m.tracks.len() ==> #[trigger] TrackInfoOffset::spec_parse(s, 0x98 + 8 * i)
                == spec_head2_entries(m)[i],
{
    let t = m.tracks.len() as int;
    let h2entries = spec_head2_entries(m);
    Head2::lemma_ser_entries_len(h2entries);
    assert forall|i: int| 0 <= i < t implies #[trigger] TrackInfoOffset::spec_parse(
        s,
        0x98 + 8 * i,
    ) == h2entries[i] by {
        assert(8 * i >= 0 && 8 * i + 8 <= 8 * t) by (nonlinear_arith)
            requires
                0 <= i,
                i + 1 <= t,
        ;
        Head2::lemma_ser_entries_index(h2entries, i);
        crate::bytes::lemma_sub_sub(s, 0x98, Head2::spec_ser_entries(h2entries), 8 * i, 8 * i + 8);
        TrackInfoOffset::lemma_parse_of_ser(h2entries[i], s, 0x98 + 8 * i);
    }
}

/// Each written HEAD3 table entry parses back to itself.
proof fn lemma_parse_written_h3entries(m: BrstmModel, s: Seq<u8>)
    requires
        m.channels.len() <= 255,
        spec_chan_infos_off(m) <= s.len(),
        s.subrange(spec_head3_off(m) + 4, spec_chan_infos_off(m)) == Head3::spec_ser_entries(
            spec_head3_entries(m),
        ),
    ensures
        forall|i: int|
            0 <= i < m.channels.len() ==> #[trigger] ChannelInfoOffset::spec_parse(
                s,
                spec_head3_off(m) + 4 + 8 * i,
            ) == spec_head3_entries(m)[i],
{
    let c = m.channels.len() as int;
    let h3_off = spec_head3_off(m);
    let h3entries = spec_head3_entries(m);
    Head3::lemma_ser_entries_len(h3entries);
    assert forall|i: int| 0 <= i < c implies #[trigger] ChannelInfoOffset::spec_parse(
        s,
        h3_off + 4 + 8 * i,
    ) == h3entries[i] by {
        assert(8 * i >= 0 && 8 * i + 8 <= 8 * c) by (nonlinear_arith)
            requires
                0 <= i,
                i + 1 <= c,
        ;
        Head3::lemma_ser_entries_index(h3entries, i);
        crate::bytes::lemma_sub_sub(
            s,
            h3_off + 4,
            Head3::spec_ser_entries(h3entries),
            8 * i,
            8 * i + 8,
        );
        ChannelInfoOffset::lemma_parse_of_ser(h3entries[i], s, h3_off + 4 + 8 * i);
    }
}

/// The model a parse of a written file recovers: the same data with the
/// fields the writer recomputed.
pub open spec fn spec_written_model(m: BrstmModel, alen: int, dlen: int) -> BrstmModel {
    BrstmModel {
        info: Head1 {
            audio_offset: (spec_data_off(m, alen) + 0x20) as u32,
            num_channels: m.channels.len() as u8,
            ..m.info
        },
        tracks: Seq::new(
            m.tracks.len(),
            |i: int| spec_promoted_track(m.tracks[i], spec_any_v1(m.tracks)),
        ),
        channels: Seq::new(
            m.channels.len(),
            |i: int|
                AdpcmChannelInformation {
                    channel_adpcm_coefficients_offset: (spec_chan_infos_off(m) - 0x48 + 56 * i
                        + 8) as u32,
                    ..m.channels[i]
                },
        ),
        adpcm_offset: (spec_adpc_off(m) + 8) as u32,
        adpcm_size: (spec_adpc_size_field(alen) - 8) as u32,
        data_offset: (spec_data_off(m, alen) + 0x20) as u32,
        data_size: dlen as u32,
    }
}

/// Assembling the parse: a byte stream that holds all the written pieces
/// parses to the written model.
#[verifier::rlimit(100)]
#[verifier::spinoff_prover]
proof fn lemma_parse_assemble(m: BrstmModel, alen: int, dlen: int, bytes: Seq<u8>)
    requires
        spec_write_wf(m, alen, dlen),
        alen >= 0,
        dlen >= 0,
        m.info.adpc_bytes_per_entry == 4,
        bytes.len() == spec_data_off(m, alen) + 0x20 + dlen,
        BrstmHeader::spec_can_parse(bytes, 0),
        BrstmHeader::spec_parse(bytes, 0) == (BrstmHeader {
            file_length: spec_file_length(m, alen, dlen) as u32,
            head_offset: 0x40,
            head_size: (spec_adpc_off(m) - 0x40) as u32,
            adpc_offset: spec_adpc_off(m) as u32,
            adpc_size: spec_adpc_size_field(alen) as u32,
            data_offset: spec_data_off(m, alen) as u32,
            data_size: (dlen + 0x20) as u32,
        }),
        HeadSectionHeader::spec_can_parse(bytes, 0x40),
        HeadSectionHeader::spec_parse(bytes, 0x40) == (HeadSectionHeader {
            head_chunk_size: (spec_adpc_off(m) - 0x40) as u32,
            head_chunks: [
                HeadChunkOffsets { head_chunk_offset: (spec_head1_off() - 0x48) as u32 },
                HeadChunkOffsets { head_chunk_offset: (spec_head2_off() - 0x48) as u32 },
                HeadChunkOffsets { head_chunk_offset: (spec_head3_off(m) - 0x48) as u32 },
            ],
        }),
        Head1::spec_can_parse(bytes, 0x60),
        Head1::spec_parse(bytes, 0x60) == (Head1 {
            audio_offset: (spec_data_off(m, alen) + 0x20) as u32,
            num_channels: m.channels.len() as u8,
            ..m.info
        }),
        bytes[0x94] == m.tracks.len() as u8,
        bytes[0x95] == (if spec_any_v1(m.tracks) {
            1u8
        } else {
            0u8
        }),
        bytes[spec_head3_off(m)] == m.channels.len() as u8,
        Head2::spec_parse_entries(bytes, 0x94) == spec_head2_entries(m),
        Head3::spec_parse_entries(bytes, spec_head3_off(m)) == spec_head3_entries(m),
        forall|i: int|
            0 <= i < m.tracks.len() ==> TrackDescription::spec_can_parse(
                bytes,
                0x48 + (#[trigger] spec_head2_entries(m)[i]).offset,
                if spec_any_v1(m.tracks) {
                    1u8
                } else {
                    0u8
                },
            ) && TrackDescription::spec_parse(
                bytes,
                0x48 + spec_head2_entries(m)[i].offset,
                if spec_any_v1(m.tracks) {
                    1u8
                } else {
                    0u8
                },
            ) == spec_promoted_track(m.tracks[i], spec_any_v1(m.tracks)),
        forall|i: int|
            0 <= i < m.channels.len() ==> 0x48 + (#[trigger] spec_head3_entries(m)[i]).offset + 56
                <= bytes.len() && spec_parse_chan(bytes, 0x48 + spec_head3_entries(m)[i].offset)
                == (AdpcmChannelInformation {
                channel_adpcm_coefficients_offset: (spec_chan_infos_off(m) - 0x48 + 56 * i
                    + 8) as u32,
                ..m.channels[i]
            }),
        forall|i: int|
            0 <= i < m.tracks.len() ==> (#[trigger] spec_head2_entries(m)[i]).track_info_type == (
            if spec_any_v1(m.tracks) {
                1u8
            } else {
                0u8
            }) && 0x48 + spec_head2_entries(m)[i].offset + (if spec_any_v1(m.tracks) {
                12int
            } else {
                4int
            }) <= bytes.len(),
    ensures
        spec_parse_brstm(bytes) == Some(spec_written_model(m, alen, dlen)),
{
    crate::bytes::lemma_align32(spec_chan_infos_off(m) + 56 * (m.channels.len() as int));
    crate::bytes::lemma_align32(alen + 8);
    crate::bytes::lemma_align32(spec_adpc_off(m) + spec_adpc_size_field(alen));
    let tiv: u8 = if spec_any_v1(m.tracks) {
        1u8
    } else {
        0u8
    };
    let hdr = BrstmHeader::spec_parse(bytes, 0);
    assert(hdr.head_offset == 0x40);
    let hs = HeadSectionHeader::spec_parse(bytes, hdr.head_offset as int);
    let base = hdr.head_offset + 8;
    assert(base == 0x48);
    let h1off = base + hs.head_chunks@[0].head_chunk_offset;
    let h2off = base + hs.head_chunks@[1].head_chunk_offset;
    let h3off = base + hs.head_chunks@[2].head_chunk_offset;
    assert(h1off == 0x60);
    assert(h2off == 0x94);
    assert(h3off == spec_head3_off(m));
    let t = m.tracks.len() as int;
    let c = m.channels.len() as int;
    let tdb = spec_track_desc_bytes(m.tracks);
    assert(t * tdb >= 0 && 56 * c >= 0) by (nonlinear_arith)
        requires
            t >= 0,
            tdb >= 0,
            c >= 0,
    ;
    assert(spec_track_infos_off(m) + t * tdb == spec_head3_off(m));
    assert(spec_chan_infos_off(m) + 56 * c <= spec_adpc_off(m));
    assert(spec_adpc_off(m) + spec_adpc_size_field(alen) <= spec_data_off(m, alen));
    assert(bytes[0x94] == t);
    assert(bytes[h3off as int] == c);
    assert(Head1::spec_can_parse(bytes, h1off as int));
    assert(Head2::spec_can_parse(bytes, h2off as int));
    assert(Head3::spec_can_parse(bytes, h3off as int));
    let tiv_p = bytes[h2off as int + 1];
    assert(tiv_p == tiv);
    let h2entries = Head2::spec_parse_entries(bytes, h2off as int);
    let h3entries = Head3::spec_parse_entries(bytes, h3off as int);
    assert(h2entries == spec_head2_entries(m));
    assert(h3entries == spec_head3_entries(m));
    assert(h2entries.len() == m.tracks.len());
    assert(h3entries.len() == m.channels.len());
    assert(forall|i: int|
        0 <= i < h3entries.len() ==> base + (#[trigger] h3entries[i]).offset + 56 <= bytes.len());
    assert(forall|i: int|
        0 <= i < h2entries.len() ==> (#[trigger] h2entries[i]).track_info_type == tiv_p && base
            + h2entries[i].offset + (if tiv_p == 1 {
            12int
        } else {
            4int
        }) <= bytes.len());
    assert(hdr.adpc_size >= 8);
    assert(hdr.data_size >= 0x20);
    assert(hdr.adpc_offset + 8 <= 0xFFFF_FFFF);
    assert(hdr.data_offset + 0x20 <= 0xFFFF_FFFF);
    let wm = spec_written_model(m, alen, dlen);
    assert(spec_parse_brstm(bytes) is Some);
    let pm = spec_parse_brstm(bytes)->0;
    assert(pm.tracks =~= wm.tracks);
    assert(pm.channels =~= wm.channels);
    assert(pm =~~= wm);
}

/// From the head-region pieces alone, a file parses to the written model.
#[verifier::rlimit(100)]
#[verifier::spinoff_prover]
proof fn lemma_parse_of_write_pieces(m: BrstmModel, alen: int, dlen: int, bytes: Seq<u8>)
    requires
        spec_write_wf(m, alen, dlen),
        alen >= 0,
        dlen >= 0,
        m.info.adpc_bytes_per_entry == 4,
        bytes.len() == spec_data_off(m, alen) + 0x20 + dlen,
        bytes.subrange(0, 0x40) == (BrstmHeader {
            file_length: spec_file_length(m, alen, dlen) as u32,
            head_offset: 0x40,
            head_size: (spec_adpc_off(m) - 0x40) as u32,
            adpc_offset: spec_adpc_off(m) as u32,
            adpc_size: spec_adpc_size_field(alen) as u32,
            data_offset: spec_data_off(m, alen) as u32,
            data_size: (dlen + 0x20) as u32,
        }).spec_ser(),
        bytes.subrange(0x40, 0x60) == (HeadSectionHeader {
            head_chunk_size: (spec_adpc_off(m) - 0x40) as u32,
            head_chunks: [
                HeadChunkOffsets { head_chunk_offset: (spec_head1_off() - 0x48) as u32 },
                HeadChunkOffsets { head_chunk_offset: (spec_head2_off() - 0x48) as u32 },
                HeadChunkOffsets { head_chunk_offset: (spec_head3_off(m) - 0x48) as u32 },
            ],
        }).spec_ser(),
        bytes.subrange(0x60, 0x94) == (Head1 {
            audio_offset: (spec_data_off(m, alen) + 0x20) as u32,
            num_channels: m.channels.len() as u8,
            ..m.info
        }).spec_ser(),
        bytes.subrange(0x94, spec_track_infos_off(m)) == seq![
            m.tracks.len() as u8,
            (if spec_any_v1(m.tracks) {
                1u8
            } else {
                0u8
            }),
            0u8,
            0u8,
        ] + Head2::spec_ser_entries(spec_head2_entries(m)),
        bytes.subrange(spec_track_infos_off(m), spec_head3_off(m)) == spec_ser_tracks(
            m.tracks,
            spec_any_v1(m.tracks),
        ),
        bytes.subrange(spec_head3_off(m), spec_chan_infos_off(m)) == seq![
            m.channels.len() as u8,
            0u8,
            0u8,
            0u8,
        ] + Head3::spec_ser_entries(spec_head3_entries(m)),
        bytes.subrange(spec_chan_infos_off(m), spec_chan_infos_off(m) + 56 * m.channels.len())
            == spec_ser_chans(m.channels, spec_chan_infos_off(m) - 0x48),
    ensures
        spec_parse_brstm(bytes) == Some(spec_written_model(m, alen, dlen)),
{
    let t = m.tracks.len() as int;
    let c = m.channels.len() as int;
    let any = spec_any_v1(m.tracks);
    let tiv: u8 = if any {
        1u8
    } else {
        0u8
    };
    let tdb = spec_track_desc_bytes(m.tracks);
    let adpc_off = spec_adpc_off(m);
    let asz = spec_adpc_size_field(alen);
    let doff = spec_data_off(m, alen);
    let ti_off = spec_track_infos_off(m);
    let h3_off = spec_head3_off(m);
    let chanoff = spec_chan_infos_off(m);
    crate::bytes::lemma_align32(chanoff + 56 * c);
    crate::bytes::lemma_align32(alen + 8);
    crate::bytes::lemma_align32(adpc_off + asz);
    crate::bytes::lemma_align32(doff + dlen + 0x20);
    let hdrw = BrstmHeader {
        file_length: spec_file_length(m, alen, dlen) as u32,
        head_offset: 0x40,
        head_size: (adpc_off - 0x40) as u32,
        adpc_offset: adpc_off as u32,
        adpc_size: asz as u32,
        data_offset: doff as u32,
        data_size: (dlen + 0x20) as u32,
    };
    BrstmHeader::lemma_parse_of_ser(hdrw, bytes, 0);
    let hsw = HeadSectionHeader {
        head_chunk_size: (adpc_off - 0x40) as u32,
        head_chunks: [
            HeadChunkOffsets { head_chunk_offset: (spec_head1_off() - 0x48) as u32 },
            HeadChunkOffsets { head_chunk_offset: (spec_head2_off() - 0x48) as u32 },
            HeadChunkOffsets { head_chunk_offset: (h3_off - 0x48) as u32 },
        ],
    };
    HeadSectionHeader::lemma_parse_of_ser(hsw, bytes, 0x40);
    let head1w = Head1 { audio_offset: (doff + 0x20) as u32, num_channels: c as u8, ..m.info };
    Head1::lemma_parse_of_ser(head1w, bytes, 0x60);

    let h2hdr = seq![t as u8, tiv, 0u8, 0u8];
    let h2entries = spec_head2_entries(m);
    Head2::lemma_ser_entries_len(h2entries);
    crate::bytes::lemma_split_suffix(bytes, 0x94, h2hdr, Head2::spec_ser_entries(h2entries));
    let subh2 = bytes.subrange(0x94, 0x98);
    assert(bytes[0x94] == subh2[0] && bytes[0x94 + 1int] == subh2[1]);
    lemma_parse_written_h2entries(m, bytes);
    assert(Head2::spec_parse_entries(bytes, 0x94) =~= h2entries);

    let h3hdr = seq![c as u8, 0u8, 0u8, 0u8];
    let h3entries = spec_head3_entries(m);
    Head3::lemma_ser_entries_len(h3entries);
    crate::bytes::lemma_split_suffix(bytes, h3_off, h3hdr, Head3::spec_ser_entries(h3entries));
    let subh3 = bytes.subrange(h3_off, h3_off + 4);
    assert(bytes[h3_off] == subh3[0]);
    lemma_parse_written_h3entries(m, bytes);
    assert(Head3::spec_parse_entries(bytes, h3_off) =~= h3entries);

    lemma_parse_written_tracks(m, bytes);
    lemma_parse_written_chans(m, bytes);
    assert forall|i: int| 0 <= i < t implies 0x48 + (#[trigger] h2entries[i]).offset == ti_off + i
        * tdb && 0x48 + h2entries[i].offset + (if any {
        12int
    } else {
        4int
    }) <= bytes.len() by {
        assert(0 <= i * tdb && (i + 1) * tdb <= t * tdb && i * tdb + tdb == (i + 1) * tdb)
            by (nonlinear_arith)
            requires
                0 <= i,
                i + 1 <= t,
                tdb >= 0,
        ;
        lemma_ser_tracks_len(m.tracks, any);
    }
    assert forall|i: int| 0 <= i < c implies 0x48 + (#[trigger] h3entries[i]).offset == chanoff
        + 56 * i && 0x48 + h3entries[i].offset + 56 <= bytes.len() by {
        assert(0 <= 56 * i && 56 * (i + 1) <= 56 * c && 56 * i + 56 == 56 * (i + 1))
            by (nonlinear_arith)
            requires
                0 <= i,
                i + 1 <= c,
        ;
    }
    lemma_parse_assemble(m, alen, dlen, bytes);
}

/// The byte-exact round trip: parsing a written file succeeds and recovers
/// the written model, whose tracks are the promoted tracks, whose channels
/// carry the rewritten coefficient offsets, and whose payload locations
/// name the two payload bodies inside the written bytes.
pub proof fn lemma_parse_of_write(m: BrstmModel, adpcm: Seq<u8>, data: Seq<u8>)
    requires
        spec_write_wf(m, adpcm.len() as int, data.len() as int),
        m.info.adpc_bytes_per_entry == 4,
    ensures
        spec_parse_brstm(spec_write_brstm(m, adpcm, data)) == Some(
            spec_written_model(m, adpcm.len() as int, data.len() as int),
        ),
{
    lemma_write_layout(m, adpcm, data);
    lemma_parse_of_write_pieces(
        m,
        adpcm.len() as int,
        data.len() as int,
        spec_write_brstm(m, adpcm, data),
    );
}

/// Promotion keeps the version flag: the promoted track list has an
/// extension exactly where the original list had one anywhere.
proof fn lemma_promoted_any(ts: Seq<TrackDescription>)
    ensures
        spec_any_v1(
            Seq::new(ts.len(), |i: int| spec_promoted_track(ts[i], spec_any_v1(ts))),
        ) == spec_any_v1(ts),
{
    let any = spec_any_v1(ts);
    let ps = Seq::new(ts.len(), |i: int| spec_promoted_track(ts[i], any));
    if any {
        let w = choose|i: int| 0 <= i < ts.len() && (#[trigger] ts[i]).info_v1 is Some;
        assert(ps[w].info_v1 is Some);
    }
}

/// Serializing the promoted track list gives the same bytes as serializing
/// the original: the serializer promotes each track itself.
proof fn lemma_ser_tracks_promoted(ts: Seq<TrackDescription>, any: bool)
    ensures
        spec_ser_tracks(Seq::new(ts.len(), |i: int| spec_promoted_track(ts[i], any)), any)
            == spec_ser_tracks(ts, any),
    decreases ts.len(),
{
    let ps = Seq::new(ts.len(), |i: int| spec_promoted_track(ts[i], any));
    if ts.len() > 0 {
        lemma_ser_tracks_promoted(ts.drop_last(), any);
        assert(ps.drop_last() =~= Seq::new(
            (ts.len() - 1) as nat,
            |i: int| spec_promoted_track(ts.drop_last()[i], any),
        ));
        assert(spec_promoted_track(ps.last(), any) == spec_promoted_track(ts.last(), any));
    }
}

/// Serializing channel records whose coefficient offsets were already set
/// to their recomputed values gives the same bytes as serializing the
/// originals: the serializer sets that field itself.
proof fn lemma_ser_chans_rewrite(cs: Seq<AdpcmChannelInformation>, base: int)
    ensures
        spec_ser_chans(
            Seq::new(
                cs.len(),
                |i: int|
                    AdpcmChannelInformation {
                        channel_adpcm_coefficients_offset: (base + 56 * i + 8) as u32,
                        ..cs[i]
                    },
            ),
            base,
        ) == spec_ser_chans(cs, base),
    decreases cs.len(),
{
    let ps = Seq::new(
        cs.len(),
        |i: int|
            AdpcmChannelInformation {
                channel_adpcm_coefficients_offset: (base + 56 * i + 8) as u32,
                ..cs[i]
            },
    );
    if cs.len() > 0 {
        lemma_ser_chans_rewrite(cs.drop_last(), base);
        assert(ps.drop_last() =~= Seq::new(
            (cs.len() - 1) as nat,
            |i: int|
                AdpcmChannelInformation {
                    channel_adpcm_coefficients_offset: (base + 56 * i + 8) as u32,
                    ..cs.drop_last()[i]
                },
        ));
        assert((AdpcmChannelInformation {
            channel_adpcm_coefficients_offset: (base + 56 * (ps.len() - 1) + 8) as u32,
            ..ps.last()
        }) == (AdpcmChannelInformation {
            channel_adpcm_coefficients_offset: (base + 56 * (cs.len() - 1) + 8) as u32,
            ..cs.last()
        }));
    }
}

/// Writing is idempotent through parsing: any container the writer emits,
/// parsed back and written again with the same payload bodies, reproduces
/// the identical byte sequence.
#[verifier::rlimit(100)]
#[verifier::spinoff_prover]
pub proof fn lemma_write_of_parse(m: BrstmModel, adpcm: Seq<u8>, data: Seq<u8>)
    requires
        spec_write_wf(m, adpcm.len() as int, data.len() as int),
        m.info.adpc_bytes_per_entry == 4,
    ensures
        ({
            let b = spec_write_brstm(m, adpcm, data);
            &&& spec_parse_brstm(b) is Some
            &&& spec_write_wf(spec_parse_brstm(b)->0, adpcm.len() as int, data.len() as int)
            &&& spec_parse_brstm(b)->0.info.adpc_bytes_per_entry == 4
            &&& spec_write_brstm(spec_parse_brstm(b)->0, adpcm, data) == b
        }),
{
    let alen = adpcm.len() as int;
    let dlen = data.len() as int;
    lemma_parse_of_write(m, adpcm, data);
    let m2 = spec_written_model(m, alen, dlen);
    let any = spec_any_v1(m.tracks);
    lemma_promoted_any(m.tracks);
    assert(m2.tracks =~= Seq::new(
        m.tracks.len(),
        |i: int| spec_promoted_track(m.tracks[i], any),
    ));
    assert(spec_any_v1(m2.tracks) == any);
    assert(spec_track_desc_bytes(m2.tracks) == spec_track_desc_bytes(m.tracks));
    assert(spec_track_infos_off(m2) == spec_track_infos_off(m));
    assert(spec_head3_off(m2) == spec_head3_off(m));
    assert(spec_chan_infos_off(m2) == spec_chan_infos_off(m));
    assert(spec_adpc_off(m2) == spec_adpc_off(m));
    assert(spec_data_off(m2, alen) == spec_data_off(m, alen));
    assert(spec_file_length(m2, alen, dlen) == spec_file_length(m, alen, dlen));
    lemma_ser_tracks_promoted(m.tracks, any);
    assert(spec_ser_tracks(m2.tracks, any) == spec_ser_tracks(m.tracks, any));
    lemma_ser_chans_rewrite(m.channels, spec_chan_infos_off(m) - 0x48);
    assert(m2.channels =~= Seq::new(
        m.channels.len(),
        |i: int|
            AdpcmChannelInformation {
                channel_adpcm_coefficients_offset: (spec_chan_infos_off(m) - 0x48 + 56 * i
                    + 8) as u32,
                ..m.channels[i]
            },
    ));
    assert(spec_ser_chans(m2.channels, spec_chan_infos_off(m2) - 0x48) == spec_ser_chans(
        m.channels,
        spec_chan_infos_off(m) - 0x48,
    ));
    assert(spec_head2_entries(m2) =~= spec_head2_entries(m));
    assert(spec_head3_entries(m2) =~= spec_head3_entries(m));
    assert((Head1 {
        audio_offset: (spec_data_off(m2, alen) + 0x20) as u32,
        num_channels: m2.channels.len() as u8,
        ..m2.info
    }) == (Head1 {
        audio_offset: (spec_data_off(m, alen) + 0x20) as u32,
        num_channels: m.channels.len() as u8,
        ..m.info
    }));
    assert(spec_write_brstm(m2, adpcm, data) == spec_write_brstm(m, adpcm, data));
}

impl BrstmInfoWithData {
    /// Serialize the container with its own payload buffers.
    pub fn write_brstm(&self) -> (r: Vec<u8>)
        requires
            spec_write_wf(
                self.info@,
                self.adpcm_bytes@.len() as int,
                self.data_bytes@.len() as int,
            ),
        ensures
            r@ == spec_write_brstm(self.info@, self.adpcm_bytes@, self.data_bytes@),
    {
        self.info.write_brstm(self.adpcm_bytes.as_slice(), self.data_bytes.as_slice())
    }
}

} // verus!