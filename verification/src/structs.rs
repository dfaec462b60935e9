//! The fixed-layout structures of the container: the file header, the HEAD
//! section with its three sub-chunks (stream info, track descriptions, channel
//! information), and the ADPC / DATA section headers. Every structure carries
//! a byte-exact big-endian serialization and a parser, with the serialized
//! form stated as a specification-level byte sequence.

use vstd::prelude::*;

use crate::bytes::{
    push_i16_be, push_u16_be, push_u32_be, push_zeros, read_i16_at, read_u16_at, read_u32_at,
    read_u8_at, spec_i16_be, spec_read_i16, spec_read_u16, spec_read_u32, spec_u16_be, spec_u32_be,
    zeros,
};

verus! {

/// Why a parse failed, together with the byte position it failed at.
#[derive(Debug, Clone, Copy, PartialEq, Eq, Structural)]
pub enum ParseErrorKind {
    /// A section or file magic did not match.
    BadMagic,
    /// The byte-order mark was not 0xFEFF.
    BadBom,
    /// The file version was not 0x0100.
    BadVersion,
    /// The stored header length was not 0x40.
    BadHeaderLength,
    /// The stored section count was not 2.
    BadChunkCount,
    /// The seek table entry width was not 4 bytes.
    BadBytesPerEntry,
    /// The DATA section's stored padding count was not 0x18.
    BadPadding,
    /// A track description's stored type differs from the section-wide type.
    TrackTypeMismatch,
    /// A read would run past the end of the input.
    OutOfRange,
}

/// A failed parse: the kind of mismatch and the position of the structure
/// that was being read.
#[derive(Debug, Clone, Copy, PartialEq, Eq, Structural)]
pub struct ParseError {
    pub pos: usize,
    pub kind: ParseErrorKind,
}

/// The 0x40-byte file header: section count is always 2 (ADPC and DATA,
/// besides the HEAD meta-section), and the stored constants (magic `RSTM`,
/// BOM 0xFEFF, version 0x0100, header length 0x40) are checked on parse and
/// emitted on write without being stored here.
#[derive(Debug, Default, Clone, PartialEq)]
pub struct BrstmHeader {
    pub file_length: u32,
    pub head_offset: u32,
    pub head_size: u32,
    pub adpc_offset: u32,
    pub adpc_size: u32,
    pub data_offset: u32,
    pub data_size: u32,
}

impl BrstmHeader {
    pub open spec fn spec_byte_len() -> int {
        0x40
    }

    pub fn byte_len() -> (r: u32)
        ensures
            r == Self::spec_byte_len(),
    {
        0x40
    }

    /// The serialized header: magic, BOM, version, lengths, the six section
    /// offsets/sizes, then 0x18 bytes of padding.
    pub open spec fn spec_ser(&self) -> Seq<u8> {
        seq![0x52u8, 0x53u8, 0x54u8, 0x4Du8] + spec_u16_be(0xFEFF) + spec_u16_be(0x0100)
            + spec_u32_be(self.file_length) + spec_u16_be(0x40) + spec_u16_be(2) + spec_u32_be(
            self.head_offset,
        ) + spec_u32_be(self.head_size) + spec_u32_be(self.adpc_offset) + spec_u32_be(
            self.adpc_size,
        ) + spec_u32_be(self.data_offset) + spec_u32_be(self.data_size) + zeros(0x18)
    }

    /// Append the serialized header.
    pub fn write_into(&self, out: &mut Vec<u8>)
        ensures
            final(out)@ == old(out)@ + self.spec_ser(),
    {
        out.push(0x52);
        out.push(0x53);
        out.push(0x54);
        out.push(0x4D);
        push_u16_be(out, 0xFEFF);
        push_u16_be(out, 0x0100);
        push_u32_be(out, self.file_length);
        push_u16_be(out, 0x40);
        push_u16_be(out, 2);
        push_u32_be(out, self.head_offset);
        push_u32_be(out, self.head_size);
        push_u32_be(out, self.adpc_offset);
        push_u32_be(out, self.adpc_size);
        push_u32_be(out, self.data_offset);
        push_u32_be(out, self.data_size);
        push_zeros(out, 0x18);
        assert(final(out)@ =~= old(out)@ + self.spec_ser());
    }

    /// The checks the parser makes: the input is long enough and the stored
    /// constants have their mandated values.
    pub open spec fn spec_can_parse(s: Seq<u8>, off: int) -> bool {
        &&& off + 0x40 <= s.len()
        &&& s[off] == 0x52u8
        &&& s[off + 1] == 0x53u8
        &&& s[off + 2] == 0x54u8
        &&& s[off + 3] == 0x4Du8
        &&& spec_read_u16(s, off + 4) == 0xFEFF
        &&& spec_read_u16(s, off + 6) == 0x0100
        &&& spec_read_u16(s, off + 12) == 0x40
        &&& spec_read_u16(s, off + 14) == 2
    }

    /// The header a successful parse yields.
    pub open spec fn spec_parse(s: Seq<u8>, off: int) -> BrstmHeader {
        BrstmHeader {
            file_length: spec_read_u32(s, off + 8) as u32,
            head_offset: spec_read_u32(s, off + 16) as u32,
            head_size: spec_read_u32(s, off + 20) as u32,
            adpc_offset: spec_read_u32(s, off + 24) as u32,
            adpc_size: spec_read_u32(s, off + 28) as u32,
            data_offset: spec_read_u32(s, off + 32) as u32,
            data_size: spec_read_u32(s, off + 36) as u32,
        }
    }

    /// Read the file header at `off`, checking magic, BOM, version, header
    /// length and section count.
    pub fn parse(data: &[u8], off: usize) -> (r: Result<BrstmHeader, ParseError>)
        ensures
            r is Ok <==> Self::spec_can_parse(data@, off as int),
            r matches Ok(h) ==> h == Self::spec_parse(data@, off as int),
    {
        if data.len() < 0x40 || off > data.len() - 0x40 {
            return Err(ParseError { pos: off, kind: ParseErrorKind::OutOfRange });
        }
        if read_u8_at(data, off) != 0x52 || read_u8_at(data, off + 1) != 0x53 || read_u8_at(
            data,
            off + 2,
        ) != 0x54 || read_u8_at(data, off + 3) != 0x4D {
            return Err(ParseError { pos: off, kind: ParseErrorKind::BadMagic });
        }
        if read_u16_at(data, off + 4) != 0xFEFF {
            return Err(ParseError { pos: off, kind: ParseErrorKind::BadBom });
        }
        if read_u16_at(data, off + 6) != 0x0100 {
            return Err(ParseError { pos: off, kind: ParseErrorKind::BadVersion });
        }
        if read_u16_at(data, off + 12) != 0x40 {
            return Err(ParseError { pos: off, kind: ParseErrorKind::BadHeaderLength });
        }
        if read_u16_at(data, off + 14) != 2 {
            return Err(ParseError { pos: off, kind: ParseErrorKind::BadChunkCount });
        }
        Ok(
            BrstmHeader {
                file_length: read_u32_at(data, off + 8),
                head_offset: read_u32_at(data, off + 16),
                head_size: read_u32_at(data, off + 20),
                adpc_offset: read_u32_at(data, off + 24),
                adpc_size: read_u32_at(data, off + 28),
                data_offset: read_u32_at(data, off + 32),
                data_size: read_u32_at(data, off + 36),
            },
        )
    }
}

/// One entry of the HEAD section's chunk table: the offset of a sub-chunk,
/// relative to the HEAD base + 8.
#[derive(Debug, Default, Clone, Copy, PartialEq, Eq, Structural)]
pub struct HeadChunkOffsets {
    pub head_chunk_offset: u32,
}

impl HeadChunkOffsets {
    pub open spec fn spec_byte_len() -> int {
        8
    }

    pub fn byte_len() -> (r: u32)
        ensures
            r == Self::spec_byte_len(),
    {
        8
    }

    /// A marker word 0x01000000 followed by the offset.
    pub open spec fn spec_ser(&self) -> Seq<u8> {
        spec_u32_be(0x0100_0000) + spec_u32_be(self.head_chunk_offset)
    }

    pub fn write_into(&self, out: &mut Vec<u8>)
        ensures
            final(out)@ == old(out)@ + self.spec_ser(),
    {
        push_u32_be(out, 0x0100_0000);
        push_u32_be(out, self.head_chunk_offset);
        assert(final(out)@ =~= old(out)@ + self.spec_ser());
    }

    /// The marker word is read over, not checked.
    pub open spec fn spec_parse(s: Seq<u8>, off: int) -> HeadChunkOffsets {
        HeadChunkOffsets { head_chunk_offset: spec_read_u32(s, off + 4) as u32 }
    }

    pub fn parse(data: &[u8], off: usize) -> (r: Result<HeadChunkOffsets, ParseError>)
        ensures
            r is Ok <==> off + 8 <= data@.len(),
            r matches Ok(h) ==> h == Self::spec_parse(data@, off as int),
    {
        if data.len() < 8 || off > data.len() - 8 {
            return Err(ParseError { pos: off, kind: ParseErrorKind::OutOfRange });
        }
        Ok(HeadChunkOffsets { head_chunk_offset: read_u32_at(data, off + 4) })
    }
}

/// The HEAD section header: magic `HEAD`, the section size, and the offsets
/// of the three sub-chunks.
#[derive(Debug, Default, Clone, Copy, PartialEq)]
pub struct HeadSectionHeader {
    pub head_chunk_size: u32,
    pub head_chunks: [HeadChunkOffsets; 3],
}

impl HeadSectionHeader {
    pub open spec fn spec_byte_len() -> int {
        8 + 3 * HeadChunkOffsets::spec_byte_len()
    }

    pub fn byte_len() -> (r: u32)
        ensures
            r == Self::spec_byte_len(),
    {
        8 + 3 * HeadChunkOffsets::byte_len()
    }

    pub open spec fn spec_ser(&self) -> Seq<u8> {
        seq![0x48u8, 0x45u8, 0x41u8, 0x44u8] + spec_u32_be(self.head_chunk_size)
            + self.head_chunks@[0].spec_ser() + self.head_chunks@[1].spec_ser()
            + self.head_chunks@[2].spec_ser()
    }

    pub fn write_into(&self, out: &mut Vec<u8>)
        ensures
            final(out)@ == old(out)@ + self.spec_ser(),
    {
        out.push(0x48);
        out.push(0x45);
        out.push(0x41);
        out.push(0x44);
        push_u32_be(out, self.head_chunk_size);
        self.head_chunks[0].write_into(out);
        self.head_chunks[1].write_into(out);
        self.head_chunks[2].write_into(out);
        assert(final(out)@ =~= old(out)@ + self.spec_ser());
    }

    pub open spec fn spec_can_parse(s: Seq<u8>, off: int) -> bool {
        &&& off + 32 <= s.len()
        &&& s[off] == 0x48u8
        &&& s[off + 1] == 0x45u8
        &&& s[off + 2] == 0x41u8
        &&& s[off + 3] == 0x44u8
    }

    pub open spec fn spec_parse(s: Seq<u8>, off: int) -> HeadSectionHeader {
        HeadSectionHeader {
            head_chunk_size: spec_read_u32(s, off + 4) as u32,
            head_chunks: [
                HeadChunkOffsets::spec_parse(s, off + 8),
                HeadChunkOffsets::spec_parse(s, off + 16),
                HeadChunkOffsets::spec_parse(s, off + 24),
            ],
        }
    }

    pub fn parse(data: &[u8], off: usize) -> (r: Result<HeadSectionHeader, ParseError>)
        ensures
            r is Ok <==> Self::spec_can_parse(data@, off as int),
            r matches Ok(h) ==> h == Self::spec_parse(data@, off as int),
    {
        if data.len() < 32 || off > data.len() - 32 {
            return Err(ParseError { pos: off, kind: ParseErrorKind::OutOfRange });
        }
        if read_u8_at(data, off) != 0x48 || read_u8_at(data, off + 1) != 0x45 || read_u8_at(
            data,
            off + 2,
        ) != 0x41 || read_u8_at(data, off + 3) != 0x44 {
            return Err(ParseError { pos: off, kind: ParseErrorKind::BadMagic });
        }
        let c0 = match HeadChunkOffsets::parse(data, off + 8) {
            Ok(c) => c,
            Err(e) => {
                return Err(e);
            },
        };
        let c1 = match HeadChunkOffsets::parse(data, off + 16) {
            Ok(c) => c,
            Err(e) => {
                return Err(e);
            },
        };
        let c2 = match HeadChunkOffsets::parse(data, off + 24) {
            Ok(c) => c,
            Err(e) => {
                return Err(e);
            },
        };
        Ok(HeadSectionHeader { head_chunk_size: read_u32_at(data, off + 4), head_chunks: [c0, c1, c2] })
    }
}

/// The HEAD1 sub-chunk: the stream information. `adpc_bytes_per_entry` is
/// checked to be 4 on parse.
#[derive(Debug, Default, Clone, Copy, PartialEq, Eq, Structural)]
pub struct Head1 {
    pub codec: u8,
    pub loop_flag: u8,
    pub num_channels: u8,
    pub sample_rate: u16,
    pub loop_start: u32,
    pub total_samples: u32,
    pub audio_offset: u32,
    pub total_blocks: u32,
    pub blocks_size: u32,
    pub blocks_samples: u32,
    pub final_block_size: u32,
    pub final_block_samples: u32,
    pub final_block_size_padded: u32,
    pub adpc_samples_per_entry: u32,
    pub adpc_bytes_per_entry: u32,
}

impl Head1 {
    pub open spec fn spec_byte_len() -> int {
        52
    }

    pub fn byte_len() -> (r: u32)
        ensures
            r == Self::spec_byte_len(),
    {
        52
    }

    pub open spec fn spec_ser(&self) -> Seq<u8> {
        seq![self.codec, self.loop_flag, self.num_channels, 0u8] + spec_u16_be(self.sample_rate)
            + zeros(2) + spec_u32_be(self.loop_start) + spec_u32_be(self.total_samples)
            + spec_u32_be(self.audio_offset) + spec_u32_be(self.total_blocks) + spec_u32_be(
            self.blocks_size,
        ) + spec_u32_be(self.blocks_samples) + spec_u32_be(self.final_block_size) + spec_u32_be(
            self.final_block_samples,
        ) + spec_u32_be(self.final_block_size_padded) + spec_u32_be(self.adpc_samples_per_entry)
            + spec_u32_be(self.adpc_bytes_per_entry)
    }

    pub fn write_into(&self, out: &mut Vec<u8>)
        ensures
            final(out)@ == old(out)@ + self.spec_ser(),
    {
        out.push(self.codec);
        out.push(self.loop_flag);
        out.push(self.num_channels);
        out.push(0);
        push_u16_be(out, self.sample_rate);
        push_zeros(out, 2);
        push_u32_be(out, self.loop_start);
        push_u32_be(out, self.total_samples);
        push_u32_be(out, self.audio_offset);
        push_u32_be(out, self.total_blocks);
        push_u32_be(out, self.blocks_size);
        push_u32_be(out, self.blocks_samples);
        push_u32_be(out, self.final_block_size);
        push_u32_be(out, self.final_block_samples);
        push_u32_be(out, self.final_block_size_padded);
        push_u32_be(out, self.adpc_samples_per_entry);
        push_u32_be(out, self.adpc_bytes_per_entry);
        assert(final(out)@ =~= old(out)@ + self.spec_ser());
    }

    pub open spec fn spec_can_parse(s: Seq<u8>, off: int) -> bool {
        &&& off + 52 <= s.len()
        &&& spec_read_u32(s, off + 48) == 4
    }

    pub open spec fn spec_parse(s: Seq<u8>, off: int) -> Head1 {
        Head1 {
            codec: s[off],
            loop_flag: s[off + 1],
            num_channels: s[off + 2],
            sample_rate: spec_read_u16(s, off + 4) as u16,
            loop_start: spec_read_u32(s, off + 8) as u32,
            total_samples: spec_read_u32(s, off + 12) as u32,
            audio_offset: spec_read_u32(s, off + 16) as u32,
            total_blocks: spec_read_u32(s, off + 20) as u32,
            blocks_size: spec_read_u32(s, off + 24) as u32,
            blocks_samples: spec_read_u32(s, off + 28) as u32,
            final_block_size: spec_read_u32(s, off + 32) as u32,
            final_block_samples: spec_read_u32(s, off + 36) as u32,
            final_block_size_padded: spec_read_u32(s, off + 40) as u32,
            adpc_samples_per_entry: spec_read_u32(s, off + 44) as u32,
            adpc_bytes_per_entry: spec_read_u32(s, off + 48) as u32,
        }
    }

    pub fn parse(data: &[u8], off: usize) -> (r: Result<Head1, ParseError>)
        ensures
            r is Ok <==> Self::spec_can_parse(data@, off as int),
            r matches Ok(h) ==> h == Self::spec_parse(data@, off as int),
    {
        if data.len() < 52 || off > data.len() - 52 {
            return Err(ParseError { pos: off, kind: ParseErrorKind::OutOfRange });
        }
        if read_u32_at(data, off + 48) != 4 {
            return Err(ParseError { pos: off, kind: ParseErrorKind::BadBytesPerEntry });
        }
        Ok(
            Head1 {
                codec: read_u8_at(data, off),
                loop_flag: read_u8_at(data, off + 1),
                num_channels: read_u8_at(data, off + 2),
                sample_rate: read_u16_at(data, off + 4),
                loop_start: read_u32_at(data, off + 8),
                total_samples: read_u32_at(data, off + 12),
                audio_offset: read_u32_at(data, off + 16),
                total_blocks: read_u32_at(data, off + 20),
                blocks_size: read_u32_at(data, off + 24),
                blocks_samples: read_u32_at(data, off + 28),
                final_block_size: read_u32_at(data, off + 32),
                final_block_samples: read_u32_at(data, off + 36),
                final_block_size_padded: read_u32_at(data, off + 40),
                adpc_samples_per_entry: read_u32_at(data, off + 44),
                adpc_bytes_per_entry: read_u32_at(data, off + 48),
            },
        )
    }
}

/// One entry of the HEAD2 track table: the track's description type and the
/// offset of its description, relative to HEAD base + 8.
#[derive(Debug, Default, Clone, Copy, PartialEq, Eq, Structural)]
pub struct TrackInfoOffset {
    pub track_info_type: u8,
    pub offset: u32,
}

impl TrackInfoOffset {
    pub open spec fn spec_byte_len() -> int {
        8
    }

    pub fn byte_len() -> (r: u32)
        ensures
            r == Self::spec_byte_len(),
    {
        8
    }

    pub open spec fn spec_ser(&self) -> Seq<u8> {
        seq![1u8, self.track_info_type, 0u8, 0u8] + spec_u32_be(self.offset)
    }

    pub fn write_into(&self, out: &mut Vec<u8>)
        ensures
            final(out)@ == old(out)@ + self.spec_ser(),
    {
        out.push(1);
        out.push(self.track_info_type);
        out.push(0);
        out.push(0);
        push_u32_be(out, self.offset);
        assert(final(out)@ =~= old(out)@ + self.spec_ser());
    }

    pub open spec fn spec_parse(s: Seq<u8>, off: int) -> TrackInfoOffset {
        TrackInfoOffset {
            track_info_type: s[off + 1],
            offset: spec_read_u32(s, off + 4) as u32,
        }
    }

    pub fn parse(data: &[u8], off: usize) -> (r: Result<TrackInfoOffset, ParseError>)
        ensures
            r is Ok <==> off + 8 <= data@.len(),
            r matches Ok(h) ==> h == Self::spec_parse(data@, off as int),
    {
        if data.len() < 8 || off > data.len() - 8 {
            return Err(ParseError { pos: off, kind: ParseErrorKind::OutOfRange });
        }
        Ok(
            TrackInfoOffset {
                track_info_type: read_u8_at(data, off + 1),
                offset: read_u32_at(data, off + 4),
            },
        )
    }
}

/// The HEAD2 sub-chunk: the section-wide track description type and the
/// table of per-track offsets.
#[derive(Debug, Default, Clone, PartialEq)]
pub struct Head2 {
    pub track_info_type: u8,
    pub track_info_offsets: Vec<TrackInfoOffset>,
}

impl Head2 {
    pub open spec fn spec_byte_len(track_count: int) -> int {
        4 + track_count * TrackInfoOffset::spec_byte_len()
    }

    pub fn byte_len(track_count: u32) -> (r: u32)
        requires
            track_count <= 255,
        ensures
            r == Self::spec_byte_len(track_count as int),
    {
        4 + track_count * TrackInfoOffset::byte_len()
    }

    /// The serialized entry table, in order.
    pub open spec fn spec_ser_entries(ts: Seq<TrackInfoOffset>) -> Seq<u8>
        decreases ts.len(),
    {
        if ts.len() == 0 {
            Seq::empty()
        } else {
            Self::spec_ser_entries(ts.drop_last()) + ts.last().spec_ser()
        }
    }

    pub proof fn lemma_ser_entries_len(ts: Seq<TrackInfoOffset>)
        ensures
            Self::spec_ser_entries(ts).len() == 8 * ts.len(),
        decreases ts.len(),
    {
        if ts.len() > 0 {
            Self::lemma_ser_entries_len(ts.drop_last());
        }
    }

    /// Byte `8 * i + k` of the entry table is byte `k` of entry `i`.
    pub proof fn lemma_ser_entries_index(ts: Seq<TrackInfoOffset>, i: int)
        requires
            0 <= i < ts.len(),
        ensures
            Self::spec_ser_entries(ts).subrange(8 * i, 8 * i + 8) == ts[i].spec_ser(),
        decreases ts.len(),
    {
        Self::lemma_ser_entries_len(ts);
        Self::lemma_ser_entries_len(ts.drop_last());
        if i == ts.len() - 1 {
            assert(Self::spec_ser_entries(ts).subrange(8 * i, 8 * i + 8) =~= ts[i].spec_ser());
        } else {
            Self::lemma_ser_entries_index(ts.drop_last(), i);
            assert(Self::spec_ser_entries(ts).subrange(8 * i, 8 * i + 8) =~= Self::spec_ser_entries(
                ts.drop_last(),
            ).subrange(8 * i, 8 * i + 8));
        }
    }

    pub open spec fn spec_ser(&self) -> Seq<u8> {
        seq![self.track_info_offsets@.len() as u8, self.track_info_type, 0u8, 0u8]
            + Self::spec_ser_entries(self.track_info_offsets@)
    }

    pub fn write_into(&self, out: &mut Vec<u8>)
        requires
            self.track_info_offsets@.len() <= 255,
        ensures
            final(out)@ == old(out)@ + self.spec_ser(),
    {
        let n = self.track_info_offsets.len();
        out.push(n as u8);
        out.push(self.track_info_type);
        out.push(0);
        out.push(0);
        let ghost hdr: Seq<u8> = seq![
            self.track_info_offsets@.len() as u8,
            self.track_info_type,
            0u8,
            0u8,
        ];
        assert(out@ =~= old(out)@ + hdr);
        let mut i: usize = 0;
        while i < n
            invariant
                i <= n,
                n == self.track_info_offsets@.len(),
                n <= 255,
                out@ == old(out)@ + hdr + Self::spec_ser_entries(
                    self.track_info_offsets@.subrange(0, i as int),
                ),
                hdr == seq![
                    self.track_info_offsets@.len() as u8,
                    self.track_info_type,
                    0u8,
                    0u8,
                ],
            decreases n - i,
        {
            proof {
                Self::lemma_ser_entries_len(self.track_info_offsets@.subrange(0, i as int));
            }
            let entry = self.track_info_offsets[i];
            entry.write_into(out);
            i = i + 1;
            proof {
                let pre = self.track_info_offsets@.subrange(0, i as int);
                assert(pre.drop_last() =~= self.track_info_offsets@.subrange(0, i - 1));
                assert(out@ =~= old(out)@ + hdr + Self::spec_ser_entries(pre));
            }
        }
        proof {
            assert(self.track_info_offsets@.subrange(0, n as int) =~= self.track_info_offsets@);
            assert(final(out)@ =~= old(out)@ + self.spec_ser());
        }
    }

    pub open spec fn spec_can_parse(s: Seq<u8>, off: int) -> bool {
        &&& off + 4 <= s.len()
        &&& off + 4 + 8 * s[off] <= s.len()
    }

    /// The entry table a successful parse yields.
    pub open spec fn spec_parse_entries(s: Seq<u8>, off: int) -> Seq<TrackInfoOffset> {
        Seq::new(s[off] as nat, |i: int| TrackInfoOffset::spec_parse(s, off + 4 + 8 * i))
    }

    pub fn parse(data: &[u8], off: usize) -> (r: Result<Head2, ParseError>)
        ensures
            r is Ok <==> Self::spec_can_parse(data@, off as int),
            r matches Ok(h) ==> h.track_info_type == data@[off + 1]
                && h.track_info_offsets@ == Self::spec_parse_entries(data@, off as int),
    {
        if data.len() < 4 || off > data.len() - 4 {
            return Err(ParseError { pos: off, kind: ParseErrorKind::OutOfRange });
        }
        let n = read_u8_at(data, off) as usize;
        if (data.len() - off - 4) / 8 < n {
            assert(off + 4 + 8 * (n as int) > data@.len());
            return Err(ParseError { pos: off, kind: ParseErrorKind::OutOfRange });
        }
        assert(off + 4 + 8 * (n as int) <= data@.len());
        let track_info_type = read_u8_at(data, off + 1);
        let mut entries: Vec<TrackInfoOffset> = Vec::new();
        let l: usize = data.len();
        let mut i: usize = 0;
        while i < n
            invariant
                i <= n,
                l == data@.len(),
                off + 4 + 8 * n <= l,
                entries@.len() == i,
                forall|j: int|
                    0 <= j < i ==> entries@[j] == TrackInfoOffset::spec_parse(
                        data@,
                        off + 4 + 8 * j,
                    ),
            decreases n - i,
        {
            let e = match TrackInfoOffset::parse(data, off + 4 + 8 * i) {
                Ok(e) => e,
                Err(e) => {
                    proof {
                        assert(false);
                    }
                    return Err(e);
                },
            };
            entries.push(e);
            i = i + 1;
        }
        let h = Head2 { track_info_type, track_info_offsets: entries };
        proof {
            assert(h.track_info_offsets@ =~= Self::spec_parse_entries(data@, off as int));
        }
        Ok(h)
    }
}

/// The optional first part of a track description, present when the track
/// description type is 1: playback volume and panning.
#[derive(Debug, Clone, Copy, PartialEq, Eq, Structural)]
pub struct TrackDescriptionV1 {
    pub track_volume: u8,
    pub track_panning: u8,
}

impl Default for TrackDescriptionV1 {
    /// The values the writer invents when promoting a version-0 track.
    fn default() -> (r: Self)
        ensures
            r.track_volume == 0x7F,
            r.track_panning == 64,
    {
        Self { track_volume: 0x7F, track_panning: 64 }
    }
}

impl TrackDescriptionV1 {
    /// Volume, panning, then six bytes of padding.
    pub open spec fn spec_ser(&self) -> Seq<u8> {
        seq![self.track_volume, self.track_panning] + zeros(6)
    }

    pub fn write_into(&self, out: &mut Vec<u8>)
        ensures
            final(out)@ == old(out)@ + self.spec_ser(),
    {
        out.push(self.track_volume);
        out.push(self.track_panning);
        push_zeros(out, 6);
        assert(final(out)@ =~= old(out)@ + self.spec_ser());
    }
}

/// The channels a track plays: one for mono, a left/right pair for stereo.
/// The payload values are channel indices into the container's channel list.
#[derive(Debug, Clone, Copy, PartialEq, Eq, Structural)]
pub enum Channels {
    Mono(u8),
    Stereo(u8, u8),
}

impl Default for Channels {
    fn default() -> (r: Self)
        ensures
            r == Channels::Mono(0u8),
    {
        Self::Mono(0)
    }
}

impl Channels {
    pub open spec fn spec_channels(&self) -> u8 {
        match self {
            Self::Mono(..) => 1,
            Self::Stereo(..) => 2,
        }
    }

    pub open spec fn spec_left(&self) -> u8 {
        match self {
            Self::Mono(c) => *c,
            Self::Stereo(c, _) => *c,
        }
    }

    pub open spec fn spec_right(&self) -> u8 {
        match self {
            Self::Mono(_) => 0,
            Self::Stereo(_, c) => *c,
        }
    }

    /// Whether `channel` is one of the channels this track plays.
    pub open spec fn spec_includes_channel(&self, channel: u8) -> bool {
        match self {
            Self::Mono(c) => *c == channel,
            Self::Stereo(l, r) => *l == channel || *r == channel,
        }
    }

    /// The number of channels the track plays.
    pub fn channels(&self) -> (r: u8)
        ensures
            r == self.spec_channels(),
    {
        match self {
            Self::Mono(..) => 1,
            Self::Stereo(..) => 2,
        }
    }

    pub fn left_channel_id(&self) -> (r: u8)
        ensures
            r == self.spec_left(),
    {
        match self {
            Self::Mono(c) => *c,
            Self::Stereo(c, _) => *c,
        }
    }

    /// For mono tracks the stored right channel id is 0.
    pub fn right_channel_id(&self) -> (r: u8)
        ensures
            r == self.spec_right(),
    {
        match self {
            Self::Mono(_) => 0,
            Self::Stereo(_, c) => *c,
        }
    }

    pub fn includes_channel(&self, channel: u8) -> (r: bool)
        ensures
            r == self.spec_includes_channel(channel),
    {
        match self {
            Self::Mono(c) => *c == channel,
            Self::Stereo(l, r) => *l == channel || *r == channel,
        }
    }
}

/// One track of the container: the optional volume/panning extension and the
/// channels the track plays. All tracks of one file share one version.
#[derive(Debug, Clone, PartialEq)]
pub struct TrackDescription {
    pub info_v1: Option<TrackDescriptionV1>,
    pub channels: Channels,
}

impl Default for TrackDescription {
    fn default() -> (r: Self)
        ensures
            r.info_v1 is None,
            r.channels == Channels::Mono(0u8),
    {
        Self { info_v1: None, channels: Channels::Mono(0) }
    }
}

impl TrackDescription {
    /// 1 when the volume/panning extension is present, else 0.
    pub open spec fn spec_version(&self) -> u8 {
        match self.info_v1 {
            Some(..) => 1,
            None => 0,
        }
    }

    pub fn get_version(&self) -> (r: u8)
        ensures
            r == self.spec_version(),
    {
        match self.info_v1 {
            Some(..) => 1,
            None => 0,
        }
    }

    pub open spec fn spec_byte_len(&self) -> int {
        match self.info_v1 {
            Some(..) => 12,
            None => 4,
        }
    }

    pub fn byte_len(&self) -> (r: u32)
        ensures
            r == self.spec_byte_len(),
    {
        match self.info_v1 {
            Some(..) => 12,
            None => 4,
        }
    }

    /// The optional version-1 prefix, then channel count, the two channel
    /// ids (0 for the right one of a mono track) and a padding byte.
    pub open spec fn spec_ser(&self) -> Seq<u8> {
        (match self.info_v1 {
            Some(v1) => v1.spec_ser(),
            None => Seq::empty(),
        }) + seq![
            self.channels.spec_channels(),
            self.channels.spec_left(),
            self.channels.spec_right(),
            0u8,
        ]
    }

    pub fn write_into(&self, out: &mut Vec<u8>)
        ensures
            final(out)@ == old(out)@ + self.spec_ser(),
    {
        match &self.info_v1 {
            Some(v1) => v1.write_into(out),
            None => (),
        }
        out.push(self.channels.channels());
        out.push(self.channels.left_channel_id());
        out.push(self.channels.right_channel_id());
        out.push(0);
        assert(final(out)@ =~= old(out)@ + self.spec_ser());
    }

    pub open spec fn spec_can_parse(s: Seq<u8>, off: int, version: u8) -> bool {
        off + (if version == 1 {
            12int
        } else {
            4int
        }) <= s.len()
    }

    /// A stored channel count of 1 yields a mono track; any other count is
    /// read as stereo.
    pub open spec fn spec_parse(s: Seq<u8>, off: int, version: u8) -> TrackDescription {
        let b = if version == 1 {
            off + 8
        } else {
            off
        };
        TrackDescription {
            info_v1: if version == 1 {
                Some(TrackDescriptionV1 { track_volume: s[off], track_panning: s[off + 1] })
            } else {
                None
            },
            channels: if s[b] == 1 {
                Channels::Mono(s[b + 1])
            } else {
                Channels::Stereo(s[b + 1], s[b + 2])
            },
        }
    }

    pub fn parse(data: &[u8], off: usize, version: u8) -> (r: Result<TrackDescription, ParseError>)
        ensures
            r is Ok <==> Self::spec_can_parse(data@, off as int, version),
            r matches Ok(t) ==> t == Self::spec_parse(data@, off as int, version),
    {
        let size: usize = if version == 1 {
            12
        } else {
            4
        };
        if data.len() < size || off > data.len() - size {
            return Err(ParseError { pos: off, kind: ParseErrorKind::OutOfRange });
        }
        let info_v1 = if version == 1 {
            Some(
                TrackDescriptionV1 {
                    track_volume: read_u8_at(data, off),
                    track_panning: read_u8_at(data, off + 1),
                },
            )
        } else {
            None
        };
        let b: usize = if version == 1 {
            off + 8
        } else {
            off
        };
        let channels_in_track = read_u8_at(data, b);
        let left = read_u8_at(data, b + 1);
        let right = read_u8_at(data, b + 2);
        let channels = if channels_in_track == 1 {
            Channels::Mono(left)
        } else {
            Channels::Stereo(left, right)
        };
        Ok(TrackDescription { info_v1, channels })
    }
}

/// One entry of the HEAD3 channel table: the offset of a channel's ADPCM
/// information, relative to HEAD base + 8.
#[derive(Debug, Default, Clone, Copy, PartialEq, Eq, Structural)]
pub struct ChannelInfoOffset {
    pub offset: u32,
}

impl ChannelInfoOffset {
    pub open spec fn spec_byte_len() -> int {
        8
    }

    pub fn byte_len() -> (r: u32)
        ensures
            r == Self::spec_byte_len(),
    {
        8
    }

    pub open spec fn spec_ser(&self) -> Seq<u8> {
        spec_u32_be(0x0100_0000) + spec_u32_be(self.offset)
    }

    pub fn write_into(&self, out: &mut Vec<u8>)
        ensures
            final(out)@ == old(out)@ + self.spec_ser(),
    {
        push_u32_be(out, 0x0100_0000);
        push_u32_be(out, self.offset);
        assert(final(out)@ =~= old(out)@ + self.spec_ser());
    }

    pub open spec fn spec_parse(s: Seq<u8>, off: int) -> ChannelInfoOffset {
        ChannelInfoOffset { offset: spec_read_u32(s, off + 4) as u32 }
    }

    pub fn parse(data: &[u8], off: usize) -> (r: Result<ChannelInfoOffset, ParseError>)
        ensures
            r is Ok <==> off + 8 <= data@.len(),
            r matches Ok(h) ==> h == Self::spec_parse(data@, off as int),
    {
        if data.len() < 8 || off > data.len() - 8 {
            return Err(ParseError { pos: off, kind: ParseErrorKind::OutOfRange });
        }
        Ok(ChannelInfoOffset { offset: read_u32_at(data, off + 4) })
    }
}

/// The HEAD3 sub-chunk: the table of per-channel information offsets.
#[derive(Debug, Default, Clone, PartialEq)]
pub struct Head3 {
    pub info_offsets: Vec<ChannelInfoOffset>,
}

impl Head3 {
    pub open spec fn spec_byte_len(channel_count: int) -> int {
        4 + channel_count * ChannelInfoOffset::spec_byte_len()
    }

    pub fn byte_len(channel_count: u32) -> (r: u32)
        requires
            channel_count <= 255,
        ensures
            r == Self::spec_byte_len(channel_count as int),
    {
        4 + channel_count * ChannelInfoOffset::byte_len()
    }

    pub open spec fn spec_ser_entries(cs: Seq<ChannelInfoOffset>) -> Seq<u8>
        decreases cs.len(),
    {
        if cs.len() == 0 {
            Seq::empty()
        } else {
            Self::spec_ser_entries(cs.drop_last()) + cs.last().spec_ser()
        }
    }

    pub proof fn lemma_ser_entries_len(cs: Seq<ChannelInfoOffset>)
        ensures
            Self::spec_ser_entries(cs).len() == 8 * cs.len(),
        decreases cs.len(),
    {
        if cs.len() > 0 {
            Self::lemma_ser_entries_len(cs.drop_last());
        }
    }

    /// Byte `8 * i + k` of the entry table is byte `k` of entry `i`.
    pub proof fn lemma_ser_entries_index(cs: Seq<ChannelInfoOffset>, i: int)
        requires
            0 <= i < cs.len(),
        ensures
            Self::spec_ser_entries(cs).subrange(8 * i, 8 * i + 8) == cs[i].spec_ser(),
        decreases cs.len(),
    {
        Self::lemma_ser_entries_len(cs);
        Self::lemma_ser_entries_len(cs.drop_last());
        if i == cs.len() - 1 {
            assert(Self::spec_ser_entries(cs).subrange(8 * i, 8 * i + 8) =~= cs[i].spec_ser());
        } else {
            Self::lemma_ser_entries_index(cs.drop_last(), i);
            assert(Self::spec_ser_entries(cs).subrange(8 * i, 8 * i + 8) =~= Self::spec_ser_entries(
                cs.drop_last(),
            ).subrange(8 * i, 8 * i + 8));
        }
    }

    pub open spec fn spec_ser(&self) -> Seq<u8> {
        seq![self.info_offsets@.len() as u8, 0u8, 0u8, 0u8] + Self::spec_ser_entries(
            self.info_offsets@,
        )
    }

    pub fn write_into(&self, out: &mut Vec<u8>)
        requires
            self.info_offsets@.len() <= 255,
        ensures
            final(out)@ == old(out)@ + self.spec_ser(),
    {
        let n = self.info_offsets.len();
        out.push(n as u8);
        out.push(0);
        out.push(0);
        out.push(0);
        let ghost hdr: Seq<u8> = seq![self.info_offsets@.len() as u8, 0u8, 0u8, 0u8];
        assert(out@ =~= old(out)@ + hdr);
        let mut i: usize = 0;
        while i < n
            invariant
                i <= n,
                n == self.info_offsets@.len(),
                n <= 255,
                out@ == old(out)@ + hdr + Self::spec_ser_entries(
                    self.info_offsets@.subrange(0, i as int),
                ),
                hdr == seq![self.info_offsets@.len() as u8, 0u8, 0u8, 0u8],
            decreases n - i,
        {
            proof {
                Self::lemma_ser_entries_len(self.info_offsets@.subrange(0, i as int));
            }
            let entry = self.info_offsets[i];
            entry.write_into(out);
            i = i + 1;
            proof {
                let pre = self.info_offsets@.subrange(0, i as int);
                assert(pre.drop_last() =~= self.info_offsets@.subrange(0, i - 1));
                assert(out@ =~= old(out)@ + hdr + Self::spec_ser_entries(pre));
            }
        }
        proof {
            assert(self.info_offsets@.subrange(0, n as int) =~= self.info_offsets@);
            assert(final(out)@ =~= old(out)@ + self.spec_ser());
        }
    }

    pub open spec fn spec_can_parse(s: Seq<u8>, off: int) -> bool {
        &&& off + 4 <= s.len()
        &&& off + 4 + 8 * s[off] <= s.len()
    }

    pub open spec fn spec_parse_entries(s: Seq<u8>, off: int) -> Seq<ChannelInfoOffset> {
        Seq::new(s[off] as nat, |i: int| ChannelInfoOffset::spec_parse(s, off + 4 + 8 * i))
    }

    pub fn parse(data: &[u8], off: usize) -> (r: Result<Head3, ParseError>)
        ensures
            r is Ok <==> Self::spec_can_parse(data@, off as int),
            r matches Ok(h) ==> h.info_offsets@ == Self::spec_parse_entries(data@, off as int),
    {
        if data.len() < 4 || off > data.len() - 4 {
            return Err(ParseError { pos: off, kind: ParseErrorKind::OutOfRange });
        }
        let n = read_u8_at(data, off) as usize;
        if (data.len() - off - 4) / 8 < n {
            assert(off + 4 + 8 * (n as int) > data@.len());
            return Err(ParseError { pos: off, kind: ParseErrorKind::OutOfRange });
        }
        assert(off + 4 + 8 * (n as int) <= data@.len());
        let mut entries: Vec<ChannelInfoOffset> = Vec::new();
        let l: usize = data.len();
        let mut i: usize = 0;
        while i < n
            invariant
                i <= n,
                l == data@.len(),
                off + 4 + 8 * n <= l,
                entries@.len() == i,
                forall|j: int|
                    0 <= j < i ==> entries@[j] == ChannelInfoOffset::spec_parse(
                        data@,
                        off + 4 + 8 * j,
                    ),
            decreases n - i,
        {
            let e = match ChannelInfoOffset::parse(data, off + 4 + 8 * i) {
                Ok(e) => e,
                Err(e) => {
                    proof {
                        assert(false);
                    }
                    return Err(e);
                },
            };
            entries.push(e);
            i = i + 1;
        }
        let h = Head3 { info_offsets: entries };
        proof {
            assert(h.info_offsets@ =~= Self::spec_parse_entries(data@, off as int));
        }
        Ok(h)
    }
}

/// Per-channel ADPCM information: the 16 predictor coefficients (eight
/// pairs), gain (always 0), the initial predictor/scale byte and decoder
/// history, and the same three fields captured at the loop start.
#[derive(Debug, Clone, Copy, PartialEq)]
pub struct AdpcmChannelInformation {
    /// HEAD-relative offset of the coefficient array; rewritten on write to
    /// point directly behind this structure's marker and offset words.
    pub channel_adpcm_coefficients_offset: u32,
    pub adpcm_coefficients: [i16; 16],
    pub gain: i16,
    pub initial_predictor: i16,
    pub history_sample1: i16,
    pub history_sample2: i16,
    pub loop_predictor: i16,
    pub loop_history_sample1: i16,
    pub loop_history_sample2: i16,
}

impl Default for AdpcmChannelInformation {
    fn default() -> (r: Self)
        ensures
            r.channel_adpcm_coefficients_offset == 0,
            r.adpcm_coefficients@ == Seq::new(16, |i: int| 0i16),
            r.gain == 0 && r.initial_predictor == 0,
            r.history_sample1 == 0 && r.history_sample2 == 0,
            r.loop_predictor == 0 && r.loop_history_sample1 == 0 && r.loop_history_sample2 == 0,
    {
        let r = Self {
            channel_adpcm_coefficients_offset: 0,
            adpcm_coefficients: [0; 16],
            gain: 0,
            initial_predictor: 0,
            history_sample1: 0,
            history_sample2: 0,
            loop_predictor: 0,
            loop_history_sample1: 0,
            loop_history_sample2: 0,
        };
        assert(r.adpcm_coefficients@ =~= Seq::new(16, |i: int| 0i16));
        r
    }
}

impl AdpcmChannelInformation {
    pub open spec fn spec_byte_len() -> int {
        56
    }

    pub fn byte_len() -> (r: u32)
        ensures
            r == Self::spec_byte_len(),
    {
        56
    }

    /// The coefficients, serialized in order.
    pub open spec fn spec_ser_coefs(cs: Seq<i16>) -> Seq<u8>
        decreases cs.len(),
    {
        if cs.len() == 0 {
            Seq::empty()
        } else {
            Self::spec_ser_coefs(cs.drop_last()) + spec_i16_be(cs.last())
        }
    }

    pub proof fn lemma_ser_coefs_len(cs: Seq<i16>)
        ensures
            Self::spec_ser_coefs(cs).len() == 2 * cs.len(),
        decreases cs.len(),
    {
        if cs.len() > 0 {
            Self::lemma_ser_coefs_len(cs.drop_last());
        }
    }

    /// Bytes `2 * i` and `2 * i + 1` of the coefficient table hold
    /// coefficient `i`.
    pub proof fn lemma_ser_coefs_index(cs: Seq<i16>, i: int)
        requires
            0 <= i < cs.len(),
        ensures
            Self::spec_ser_coefs(cs).subrange(2 * i, 2 * i + 2) == spec_i16_be(cs[i]),
        decreases cs.len(),
    {
        Self::lemma_ser_coefs_len(cs);
        Self::lemma_ser_coefs_len(cs.drop_last());
        if i == cs.len() - 1 {
            assert(Self::spec_ser_coefs(cs).subrange(2 * i, 2 * i + 2) =~= spec_i16_be(cs[i]));
        } else {
            Self::lemma_ser_coefs_index(cs.drop_last(), i);
            assert(Self::spec_ser_coefs(cs).subrange(2 * i, 2 * i + 2) =~= Self::spec_ser_coefs(
                cs.drop_last(),
            ).subrange(2 * i, 2 * i + 2));
        }
    }

    /// Marker word, coefficient-array offset, the 16 coefficients, then the
    /// seven remaining fields and two bytes of padding.
    pub open spec fn spec_ser(&self) -> Seq<u8> {
        spec_u32_be(0x0100_0000) + spec_u32_be(self.channel_adpcm_coefficients_offset)
            + Self::spec_ser_coefs(self.adpcm_coefficients@) + spec_i16_be(self.gain) + spec_i16_be(
            self.initial_predictor,
        ) + spec_i16_be(self.history_sample1) + spec_i16_be(self.history_sample2) + spec_i16_be(
            self.loop_predictor,
        ) + spec_i16_be(self.loop_history_sample1) + spec_i16_be(self.loop_history_sample2) + zeros(
            2,
        )
    }

    pub fn write_into(&self, out: &mut Vec<u8>)
        ensures
            final(out)@ == old(out)@ + self.spec_ser(),
    {
        push_u32_be(out, 0x0100_0000);
        push_u32_be(out, self.channel_adpcm_coefficients_offset);
        let ghost base = out@;
        let mut i: usize = 0;
        while i < 16
            invariant
                i <= 16,
                out@ == base + Self::spec_ser_coefs(self.adpcm_coefficients@.subrange(0, i as int)),
                base == old(out)@ + spec_u32_be(0x0100_0000) + spec_u32_be(
                    self.channel_adpcm_coefficients_offset,
                ),
            decreases 16 - i,
        {
            proof {
                Self::lemma_ser_coefs_len(self.adpcm_coefficients@.subrange(0, i as int));
            }
            push_i16_be(out, self.adpcm_coefficients[i]);
            i = i + 1;
            proof {
                let pre = self.adpcm_coefficients@.subrange(0, i as int);
                assert(pre.drop_last() =~= self.adpcm_coefficients@.subrange(0, i - 1));
                assert(out@ =~= base + Self::spec_ser_coefs(pre));
            }
        }
        proof {
            assert(self.adpcm_coefficients@.subrange(0, 16) =~= self.adpcm_coefficients@);
            Self::lemma_ser_coefs_len(self.adpcm_coefficients@);
        }
        push_i16_be(out, self.gain);
        push_i16_be(out, self.initial_predictor);
        push_i16_be(out, self.history_sample1);
        push_i16_be(out, self.history_sample2);
        push_i16_be(out, self.loop_predictor);
        push_i16_be(out, self.loop_history_sample1);
        push_i16_be(out, self.loop_history_sample2);
        push_zeros(out, 2);
        assert(final(out)@ =~= old(out)@ + self.spec_ser());
    }

    pub open spec fn spec_parse_coefs(s: Seq<u8>, off: int) -> Seq<i16> {
        Seq::new(16, |i: int| spec_read_i16(s, off + 8 + 2 * i))
    }

    pub fn parse(data: &[u8], off: usize) -> (r: Result<AdpcmChannelInformation, ParseError>)
        ensures
            r is Ok <==> off + 56 <= data@.len(),
            r matches Ok(c) ==> {
                &&& c.channel_adpcm_coefficients_offset == spec_read_u32(data@, off + 4)
                &&& c.adpcm_coefficients@ == Self::spec_parse_coefs(data@, off as int)
                &&& c.gain == spec_read_i16(data@, off + 40)
                &&& c.initial_predictor == spec_read_i16(data@, off + 42)
                &&& c.history_sample1 == spec_read_i16(data@, off + 44)
                &&& c.history_sample2 == spec_read_i16(data@, off + 46)
                &&& c.loop_predictor == spec_read_i16(data@, off + 48)
                &&& c.loop_history_sample1 == spec_read_i16(data@, off + 50)
                &&& c.loop_history_sample2 == spec_read_i16(data@, off + 52)
            },
    {
        if data.len() < 56 || off > data.len() - 56 {
            return Err(ParseError { pos: off, kind: ParseErrorKind::OutOfRange });
        }
        let mut coefs: [i16; 16] = [0; 16];
        let l: usize = data.len();
        let mut i: usize = 0;
        while i < 16
            invariant
                i <= 16,
                l == data@.len(),
                off + 56 <= l,
                coefs@.len() == 16,
                forall|j: int| 0 <= j < i ==> coefs@[j] == spec_read_i16(data@, off + 8 + 2 * j),
            decreases 16 - i,
        {
            coefs[i] = read_i16_at(data, off + 8 + 2 * i);
            i = i + 1;
        }
        let c = AdpcmChannelInformation {
            channel_adpcm_coefficients_offset: read_u32_at(data, off + 4),
            adpcm_coefficients: coefs,
            gain: read_i16_at(data, off + 40),
            initial_predictor: read_i16_at(data, off + 42),
            history_sample1: read_i16_at(data, off + 44),
            history_sample2: read_i16_at(data, off + 46),
            loop_predictor: read_i16_at(data, off + 48),
            loop_history_sample1: read_i16_at(data, off + 50),
            loop_history_sample2: read_i16_at(data, off + 52),
        };
        proof {
            assert(c.adpcm_coefficients@ =~= Self::spec_parse_coefs(data@, off as int));
        }
        Ok(c)
    }
}

/// The header of the ADPC section: magic `ADPC` and the section length in
/// bytes, the header included.
#[derive(Debug, Default, Clone, Copy, PartialEq, Eq, Structural)]
pub struct AdpcHeader {
    pub data_len: u32,
}

impl AdpcHeader {
    pub open spec fn spec_byte_len() -> int {
        8
    }

    pub open spec fn spec_ser(&self) -> Seq<u8> {
        seq![0x41u8, 0x44u8, 0x50u8, 0x43u8] + spec_u32_be(self.data_len)
    }

    pub fn write_into(&self, out: &mut Vec<u8>)
        ensures
            final(out)@ == old(out)@ + self.spec_ser(),
    {
        out.push(0x41);
        out.push(0x44);
        out.push(0x50);
        out.push(0x43);
        push_u32_be(out, self.data_len);
        assert(final(out)@ =~= old(out)@ + self.spec_ser());
    }

    pub open spec fn spec_can_parse(s: Seq<u8>, off: int) -> bool {
        &&& off + 8 <= s.len()
        &&& s[off] == 0x41u8
        &&& s[off + 1] == 0x44u8
        &&& s[off + 2] == 0x50u8
        &&& s[off + 3] == 0x43u8
    }

    pub open spec fn spec_parse(s: Seq<u8>, off: int) -> AdpcHeader {
        AdpcHeader { data_len: spec_read_u32(s, off + 4) as u32 }
    }

    pub fn parse(data: &[u8], off: usize) -> (r: Result<AdpcHeader, ParseError>)
        ensures
            r is Ok <==> Self::spec_can_parse(data@, off as int),
            r matches Ok(h) ==> h == Self::spec_parse(data@, off as int),
    {
        if data.len() < 8 || off > data.len() - 8 {
            return Err(ParseError { pos: off, kind: ParseErrorKind::OutOfRange });
        }
        if read_u8_at(data, off) != 0x41 || read_u8_at(data, off + 1) != 0x44 || read_u8_at(
            data,
            off + 2,
        ) != 0x50 || read_u8_at(data, off + 3) != 0x43 {
            return Err(ParseError { pos: off, kind: ParseErrorKind::BadMagic });
        }
        Ok(AdpcHeader { data_len: read_u32_at(data, off + 4) })
    }
}

/// The header of the DATA section: magic `DATA`, the section length (header
/// included, 0x20 at least), a stored padding count of 0x18, and 0x14
/// reserved bytes.
#[derive(Debug, Default, Clone, Copy, PartialEq, Eq, Structural)]
pub struct DataHeader {
    pub data_len: u32,
}

impl DataHeader {
    pub open spec fn spec_byte_len() -> int {
        0x20
    }

    pub open spec fn spec_ser(&self) -> Seq<u8> {
        seq![0x44u8, 0x41u8, 0x54u8, 0x41u8] + spec_u32_be(self.data_len) + spec_u32_be(0x18)
            + zeros(0x14)
    }

    pub fn write_into(&self, out: &mut Vec<u8>)
        ensures
            final(out)@ == old(out)@ + self.spec_ser(),
    {
        out.push(0x44);
        out.push(0x41);
        out.push(0x54);
        out.push(0x41);
        push_u32_be(out, self.data_len);
        push_u32_be(out, 0x18);
        push_zeros(out, 0x14);
        assert(final(out)@ =~= old(out)@ + self.spec_ser());
    }

    pub open spec fn spec_can_parse(s: Seq<u8>, off: int) -> bool {
        &&& off + 0x20 <= s.len()
        &&& s[off] == 0x44u8
        &&& s[off + 1] == 0x41u8
        &&& s[off + 2] == 0x54u8
        &&& s[off + 3] == 0x41u8
        &&& spec_read_u32(s, off + 8) == 0x18
    }

    pub open spec fn spec_parse(s: Seq<u8>, off: int) -> DataHeader {
        DataHeader { data_len: spec_read_u32(s, off + 4) as u32 }
    }

    pub fn parse(data: &[u8], off: usize) -> (r: Result<DataHeader, ParseError>)
        ensures
            r is Ok <==> Self::spec_can_parse(data@, off as int),
            r matches Ok(h) ==> h == Self::spec_parse(data@, off as int),
    {
        if data.len() < 0x20 || off > data.len() - 0x20 {
            return Err(ParseError { pos: off, kind: ParseErrorKind::OutOfRange });
        }
        if read_u8_at(data, off) != 0x44 || read_u8_at(data, off + 1) != 0x41 || read_u8_at(
            data,
            off + 2,
        ) != 0x54 || read_u8_at(data, off + 3) != 0x41 {
            return Err(ParseError { pos: off, kind: ParseErrorKind::BadMagic });
        }
        if read_u32_at(data, off + 8) != 0x18 {
            return Err(ParseError { pos: off, kind: ParseErrorKind::BadPadding });
        }
        Ok(DataHeader { data_len: read_u32_at(data, off + 4) })
    }
}

/// Read the ADPC section at `off`: check its header and return a copy of its
/// payload, the `data_len - 8` bytes behind the header.
pub fn read_adpcm_section(data: &[u8], off: usize) -> (r: Result<Vec<u8>, ParseError>)
    ensures
        r is Ok <==> AdpcHeader::spec_can_parse(data@, off as int) && {
            let dl = spec_read_u32(data@, off + 4);
            dl >= 8 && off + dl <= data@.len()
        },
        r matches Ok(v) ==> v@ == data@.subrange(off + 8, off + spec_read_u32(data@, off + 4)),
{
    let header = match AdpcHeader::parse(data, off) {
        Ok(h) => h,
        Err(e) => {
            return Err(e);
        },
    };
    let dl = header.data_len as usize;
    if dl < 8 || dl > data.len() || off > data.len() - dl {
        return Err(ParseError { pos: off, kind: ParseErrorKind::OutOfRange });
    }
    let mut buf: Vec<u8> = Vec::new();
    crate::bytes::push_bytes(&mut buf, &data[off + 8..off + dl]);
    Ok(buf)
}

/// Read the DATA section at `off`: check its header and return a copy of its
/// payload, the `data_len - 0x20` bytes behind the header.
pub fn read_data_section(data: &[u8], off: usize) -> (r: Result<Vec<u8>, ParseError>)
    ensures
        r is Ok <==> DataHeader::spec_can_parse(data@, off as int) && {
            let dl = spec_read_u32(data@, off + 4);
            dl >= 0x20 && off + dl <= data@.len()
        },
        r matches Ok(v) ==> v@ == data@.subrange(off + 0x20, off + spec_read_u32(data@, off + 4)),
{
    let header = match DataHeader::parse(data, off) {
        Ok(h) => h,
        Err(e) => {
            return Err(e);
        },
    };
    let dl = header.data_len as usize;
    if dl < 0x20 || dl > data.len() || off > data.len() - dl {
        return Err(ParseError { pos: off, kind: ParseErrorKind::OutOfRange });
    }
    let mut buf: Vec<u8> = Vec::new();
    crate::bytes::push_bytes(&mut buf, &data[off + 0x20..off + dl]);
    Ok(buf)
}

impl BrstmHeader {
    /// Parsing inverts serialization: wherever a serialized header lies in
    /// a byte stream, the parse checks pass and recover it.
    #[verifier::rlimit(100)]
    pub proof fn lemma_parse_of_ser(h: BrstmHeader, s: Seq<u8>, off: int)
        requires
            0 <= off,
            off + 0x40 <= s.len(),
            s.subrange(off, off + 0x40) == h.spec_ser(),
        ensures
            BrstmHeader::spec_can_parse(s, off),
            BrstmHeader::spec_parse(s, off) == h,
    {
        let ser = h.spec_ser();
        let c0 = seq![0x52u8, 0x53u8, 0x54u8, 0x4Du8];
        let c1 = spec_u16_be(0xFEFF);
        let c2 = spec_u16_be(0x0100);
        let c3 = spec_u32_be(h.file_length);
        let c4 = spec_u16_be(0x40);
        let c5 = spec_u16_be(2);
        let c6 = spec_u32_be(h.head_offset);
        let c7 = spec_u32_be(h.head_size);
        let c8 = spec_u32_be(h.adpc_offset);
        let c9 = spec_u32_be(h.adpc_size);
        let c10 = spec_u32_be(h.data_offset);
        let c11 = spec_u32_be(h.data_size);
        let c12 = zeros(0x18);
        let q0 = c0;
        let q1 = c0 + c1;
        let q2 = c0 + c1 + c2;
        let q3 = c0 + c1 + c2 + c3;
        let q4 = c0 + c1 + c2 + c3 + c4;
        let q5 = c0 + c1 + c2 + c3 + c4 + c5;
        let q6 = c0 + c1 + c2 + c3 + c4 + c5 + c6;
        let q7 = c0 + c1 + c2 + c3 + c4 + c5 + c6 + c7;
        let q8 = c0 + c1 + c2 + c3 + c4 + c5 + c6 + c7 + c8;
        let q9 = c0 + c1 + c2 + c3 + c4 + c5 + c6 + c7 + c8 + c9;
        let q10 = c0 + c1 + c2 + c3 + c4 + c5 + c6 + c7 + c8 + c9 + c10;
        let q11 = c0 + c1 + c2 + c3 + c4 + c5 + c6 + c7 + c8 + c9 + c10 + c11;
        let q12 = c0 + c1 + c2 + c3 + c4 + c5 + c6 + c7 + c8 + c9 + c10 + c11 + c12;
        assert(ser == q12);
        assert(c0.len() == 4);
        assert(c1.len() == 2);
        assert(c2.len() == 2);
        assert(c3.len() == 4);
        assert(c4.len() == 2);
        assert(c5.len() == 2);
        assert(c6.len() == 4);
        assert(c7.len() == 4);
        assert(c8.len() == 4);
        assert(c9.len() == 4);
        assert(c10.len() == 4);
        assert(c11.len() == 4);
        assert(c12.len() == 24);
        assert(q0.len() == 4);
        assert(q1.len() == 6);
        assert(q2.len() == 8);
        assert(q3.len() == 12);
        assert(q4.len() == 14);
        assert(q5.len() == 16);
        assert(q6.len() == 20);
        assert(q7.len() == 24);
        assert(q8.len() == 28);
        assert(q9.len() == 32);
        assert(q10.len() == 36);
        assert(q11.len() == 40);
        assert(q12.len() == 64);
        assert(s.subrange(off, off + 64) == q12);
        assert(s.subrange(off, off + 64) == q11 + c12);
        crate::bytes::lemma_split_suffix(s, off, q11, c12);
        assert(s.subrange(off + 40, off + 64) == c12);
        assert(s.subrange(off, off + 40) == q10 + c11);
        crate::bytes::lemma_split_suffix(s, off, q10, c11);
        assert(s.subrange(off + 36, off + 40) == c11);
        assert(s.subrange(off, off + 36) == q9 + c10);
        crate::bytes::lemma_split_suffix(s, off, q9, c10);
        assert(s.subrange(off + 32, off + 36) == c10);
        assert(s.subrange(off, off + 32) == q8 + c9);
        crate::bytes::lemma_split_suffix(s, off, q8, c9);
        assert(s.subrange(off + 28, off + 32) == c9);
        assert(s.subrange(off, off + 28) == q7 + c8);
        crate::bytes::lemma_split_suffix(s, off, q7, c8);
        assert(s.subrange(off + 24, off + 28) == c8);
        assert(s.subrange(off, off + 24) == q6 + c7);
        crate::bytes::lemma_split_suffix(s, off, q6, c7);
        assert(s.subrange(off + 20, off + 24) == c7);
        assert(s.subrange(off, off + 20) == q5 + c6);
        crate::bytes::lemma_split_suffix(s, off, q5, c6);
        assert(s.subrange(off + 16, off + 20) == c6);
        assert(s.subrange(off, off + 16) == q4 + c5);
        crate::bytes::lemma_split_suffix(s, off, q4, c5);
        assert(s.subrange(off + 14, off + 16) == c5);
        assert(s.subrange(off, off + 14) == q3 + c4);
        crate::bytes::lemma_split_suffix(s, off, q3, c4);
        assert(s.subrange(off + 12, off + 14) == c4);
        assert(s.subrange(off, off + 12) == q2 + c3);
        crate::bytes::lemma_split_suffix(s, off, q2, c3);
        assert(s.subrange(off + 8, off + 12) == c3);
        assert(s.subrange(off, off + 8) == q1 + c2);
        crate::bytes::lemma_split_suffix(s, off, q1, c2);
        assert(s.subrange(off + 6, off + 8) == c2);
        assert(s.subrange(off, off + 6) == q0 + c1);
        crate::bytes::lemma_split_suffix(s, off, q0, c1);
        assert(s.subrange(off + 4, off + 6) == c1);
        crate::bytes::lemma_read_u16_sub(s, off + 4, 0xFEFFu16);
        crate::bytes::lemma_read_u16_sub(s, off + 6, 0x0100u16);
        crate::bytes::lemma_read_u32_sub(s, off + 8, h.file_length);
        crate::bytes::lemma_read_u16_sub(s, off + 12, 0x40u16);
        crate::bytes::lemma_read_u16_sub(s, off + 14, 2u16);
        crate::bytes::lemma_read_u32_sub(s, off + 16, h.head_offset);
        crate::bytes::lemma_read_u32_sub(s, off + 20, h.head_size);
        crate::bytes::lemma_read_u32_sub(s, off + 24, h.adpc_offset);
        crate::bytes::lemma_read_u32_sub(s, off + 28, h.adpc_size);
        crate::bytes::lemma_read_u32_sub(s, off + 32, h.data_offset);
        crate::bytes::lemma_read_u32_sub(s, off + 36, h.data_size);
        let sub0 = s.subrange(off, off + 4);
        assert(s[off] == sub0[0] && s[off + 1] == sub0[1] && s[off + 2] == sub0[2] && s[off + 3]
            == sub0[3]);
    }
}

impl HeadSectionHeader {
    /// Parsing inverts serialization.
    #[verifier::rlimit(100)]
    pub proof fn lemma_parse_of_ser(h: HeadSectionHeader, s: Seq<u8>, off: int)
        requires
            0 <= off,
            off + 32 <= s.len(),
            s.subrange(off, off + 32) == h.spec_ser(),
        ensures
            HeadSectionHeader::spec_can_parse(s, off),
            HeadSectionHeader::spec_parse(s, off) == h,
    {
        let ser = h.spec_ser();
        let c0 = seq![0x48u8, 0x45u8, 0x41u8, 0x44u8];
        let c1 = spec_u32_be(h.head_chunk_size);
        let c2 = h.head_chunks@[0].spec_ser();
        let c3 = h.head_chunks@[1].spec_ser();
        let c4 = h.head_chunks@[2].spec_ser();
        let q0 = c0;
        let q1 = c0 + c1;
        let q2 = c0 + c1 + c2;
        let q3 = c0 + c1 + c2 + c3;
        let q4 = c0 + c1 + c2 + c3 + c4;
        assert(ser == q4);
        assert(c0.len() == 4);
        assert(c1.len() == 4);
        assert(c2.len() == 8);
        assert(c3.len() == 8);
        assert(c4.len() == 8);
        assert(q0.len() == 4);
        assert(q1.len() == 8);
        assert(q2.len() == 16);
        assert(q3.len() == 24);
        assert(q4.len() == 32);
        assert(s.subrange(off, off + 32) == q4);
        assert(s.subrange(off, off + 32) == q3 + c4);
        crate::bytes::lemma_split_suffix(s, off, q3, c4);
        assert(s.subrange(off + 24, off + 32) == c4);
        assert(s.subrange(off, off + 24) == q2 + c3);
        crate::bytes::lemma_split_suffix(s, off, q2, c3);
        assert(s.subrange(off + 16, off + 24) == c3);
        assert(s.subrange(off, off + 16) == q1 + c2);
        crate::bytes::lemma_split_suffix(s, off, q1, c2);
        assert(s.subrange(off + 8, off + 16) == c2);
        assert(s.subrange(off, off + 8) == q0 + c1);
        crate::bytes::lemma_split_suffix(s, off, q0, c1);
        assert(s.subrange(off + 4, off + 8) == c1);
        crate::bytes::lemma_read_u32_sub(s, off + 4, h.head_chunk_size);
        let sub0 = s.subrange(off, off + 4);
        assert(s[off] == sub0[0] && s[off + 1] == sub0[1] && s[off + 2] == sub0[2] && s[off + 3]
            == sub0[3]);
        lemma_parse_chunk_of_ser(h.head_chunks@[0], s, off + 8);
        lemma_parse_chunk_of_ser(h.head_chunks@[1], s, off + 16);
        lemma_parse_chunk_of_ser(h.head_chunks@[2], s, off + 24);
        let p = HeadSectionHeader::spec_parse(s, off);
        assert(p.head_chunks@ =~= h.head_chunks@);
        assert(p.head_chunks == h.head_chunks);
    }
}

/// Parsing a serialized chunk-table entry recovers it.
pub proof fn lemma_parse_chunk_of_ser(h: HeadChunkOffsets, s: Seq<u8>, off: int)
    requires
        0 <= off,
        off + 8 <= s.len(),
        s.subrange(off, off + 8) == h.spec_ser(),
    ensures
        HeadChunkOffsets::spec_parse(s, off) == h,
{
    let c0 = spec_u32_be(0x0100_0000);
    let c1 = spec_u32_be(h.head_chunk_offset);
    assert(h.spec_ser() == c0 + c1);
    assert(c0.len() == 4 && c1.len() == 4);
    crate::bytes::lemma_split_suffix(s, off, c0, c1);
    assert(s.subrange(off + 4, off + 8) == c1);
    crate::bytes::lemma_read_u32_sub(s, off + 4, h.head_chunk_offset);
}

impl Head1 {
    /// Parsing inverts serialization, given the mandated entry width.
    #[verifier::rlimit(100)]
    pub proof fn lemma_parse_of_ser(h: Head1, s: Seq<u8>, off: int)
        requires
            0 <= off,
            off + 52 <= s.len(),
            s.subrange(off, off + 52) == h.spec_ser(),
            h.adpc_bytes_per_entry == 4,
        ensures
            Head1::spec_can_parse(s, off),
            Head1::spec_parse(s, off) == h,
    {
        let ser = h.spec_ser();
        let c0 = seq![h.codec, h.loop_flag, h.num_channels, 0u8];
        let c1 = spec_u16_be(h.sample_rate);
        let c2 = zeros(2);
        let c3 = spec_u32_be(h.loop_start);
        let c4 = spec_u32_be(h.total_samples);
        let c5 = spec_u32_be(h.audio_offset);
        let c6 = spec_u32_be(h.total_blocks);
        let c7 = spec_u32_be(h.blocks_size);
        let c8 = spec_u32_be(h.blocks_samples);
        let c9 = spec_u32_be(h.final_block_size);
        let c10 = spec_u32_be(h.final_block_samples);
        let c11 = spec_u32_be(h.final_block_size_padded);
        let c12 = spec_u32_be(h.adpc_samples_per_entry);
        let c13 = spec_u32_be(h.adpc_bytes_per_entry);
        let q0 = c0;
        let q1 = c0 + c1;
        let q2 = c0 + c1 + c2;
        let q3 = c0 + c1 + c2 + c3;
        let q4 = c0 + c1 + c2 + c3 + c4;
        let q5 = c0 + c1 + c2 + c3 + c4 + c5;
        let q6 = c0 + c1 + c2 + c3 + c4 + c5 + c6;
        let q7 = c0 + c1 + c2 + c3 + c4 + c5 + c6 + c7;
        let q8 = c0 + c1 + c2 + c3 + c4 + c5 + c6 + c7 + c8;
        let q9 = c0 + c1 + c2 + c3 + c4 + c5 + c6 + c7 + c8 + c9;
        let q10 = c0 + c1 + c2 + c3 + c4 + c5 + c6 + c7 + c8 + c9 + c10;
        let q11 = c0 + c1 + c2 + c3 + c4 + c5 + c6 + c7 + c8 + c9 + c10 + c11;
        let q12 = c0 + c1 + c2 + c3 + c4 + c5 + c6 + c7 + c8 + c9 + c10 + c11 + c12;
        let q13 = c0 + c1 + c2 + c3 + c4 + c5 + c6 + c7 + c8 + c9 + c10 + c11 + c12 + c13;
        assert(ser == q13);
        assert(c0.len() == 4);
        assert(c1.len() == 2);
        assert(c2.len() == 2);
        assert(c3.len() == 4);
        assert(c4.len() == 4);
        assert(c5.len() == 4);
        assert(c6.len() == 4);
        assert(c7.len() == 4);
        assert(c8.len() == 4);
        assert(c9.len() == 4);
        assert(c10.len() == 4);
        assert(c11.len() == 4);
        assert(c12.len() == 4);
        assert(c13.len() == 4);
        assert(q0.len() == 4);
        assert(q1.len() == 6);
        assert(q2.len() == 8);
        assert(q3.len() == 12);
        assert(q4.len() == 16);
        assert(q5.len() == 20);
        assert(q6.len() == 24);
        assert(q7.len() == 28);
        assert(q8.len() == 32);
        assert(q9.len() == 36);
        assert(q10.len() == 40);
        assert(q11.len() == 44);
        assert(q12.len() == 48);
        assert(q13.len() == 52);
        assert(s.subrange(off, off + 52) == q13);
        assert(s.subrange(off, off + 52) == q12 + c13);
        crate::bytes::lemma_split_suffix(s, off, q12, c13);
        assert(s.subrange(off + 48, off + 52) == c13);
        assert(s.subrange(off, off + 48) == q11 + c12);
        crate::bytes::lemma_split_suffix(s, off, q11, c12);
        assert(s.subrange(off + 44, off + 48) == c12);
        assert(s.subrange(off, off + 44) == q10 + c11);
        crate::bytes::lemma_split_suffix(s, off, q10, c11);
        assert(s.subrange(off + 40, off + 44) == c11);
        assert(s.subrange(off, off + 40) == q9 + c10);
        crate::bytes::lemma_split_suffix(s, off, q9, c10);
        assert(s.subrange(off + 36, off + 40) == c10);
        assert(s.subrange(off, off + 36) == q8 + c9);
        crate::bytes::lemma_split_suffix(s, off, q8, c9);
        assert(s.subrange(off + 32, off + 36) == c9);
        assert(s.subrange(off, off + 32) == q7 + c8);
        crate::bytes::lemma_split_suffix(s, off, q7, c8);
        assert(s.subrange(off + 28, off + 32) == c8);
        assert(s.subrange(off, off + 28) == q6 + c7);
        crate::bytes::lemma_split_suffix(s, off, q6, c7);
        assert(s.subrange(off + 24, off + 28) == c7);
        assert(s.subrange(off, off + 24) == q5 + c6);
        crate::bytes::lemma_split_suffix(s, off, q5, c6);
        assert(s.subrange(off + 20, off + 24) == c6);
        assert(s.subrange(off, off + 20) == q4 + c5);
        crate::bytes::lemma_split_suffix(s, off, q4, c5);
        assert(s.subrange(off + 16, off + 20) == c5);
        assert(s.subrange(off, off + 16) == q3 + c4);
        crate::bytes::lemma_split_suffix(s, off, q3, c4);
        assert(s.subrange(off + 12, off + 16) == c4);
        assert(s.subrange(off, off + 12) == q2 + c3);
        crate::bytes::lemma_split_suffix(s, off, q2, c3);
        assert(s.subrange(off + 8, off + 12) == c3);
        assert(s.subrange(off, off + 8) == q1 + c2);
        crate::bytes::lemma_split_suffix(s, off, q1, c2);
        assert(s.subrange(off + 6, off + 8) == c2);
        assert(s.subrange(off, off + 6) == q0 + c1);
        crate::bytes::lemma_split_suffix(s, off, q0, c1);
        assert(s.subrange(off + 4, off + 6) == c1);
        crate::bytes::lemma_read_u16_sub(s, off + 4, h.sample_rate);
        crate::bytes::lemma_read_u32_sub(s, off + 8, h.loop_start);
        crate::bytes::lemma_read_u32_sub(s, off + 12, h.total_samples);
        crate::bytes::lemma_read_u32_sub(s, off + 16, h.audio_offset);
        crate::bytes::lemma_read_u32_sub(s, off + 20, h.total_blocks);
        crate::bytes::lemma_read_u32_sub(s, off + 24, h.blocks_size);
        crate::bytes::lemma_read_u32_sub(s, off + 28, h.blocks_samples);
        crate::bytes::lemma_read_u32_sub(s, off + 32, h.final_block_size);
        crate::bytes::lemma_read_u32_sub(s, off + 36, h.final_block_samples);
        crate::bytes::lemma_read_u32_sub(s, off + 40, h.final_block_size_padded);
        crate::bytes::lemma_read_u32_sub(s, off + 44, h.adpc_samples_per_entry);
        crate::bytes::lemma_read_u32_sub(s, off + 48, h.adpc_bytes_per_entry);
        let sub0 = s.subrange(off, off + 4);
        assert(s[off] == sub0[0] && s[off + 1] == sub0[1] && s[off + 2] == sub0[2]);
    }
}

impl TrackInfoOffset {
    /// Parsing inverts serialization.
    pub proof fn lemma_parse_of_ser(h: TrackInfoOffset, s: Seq<u8>, off: int)
        requires
            0 <= off,
            off + 8 <= s.len(),
            s.subrange(off, off + 8) == h.spec_ser(),
        ensures
            TrackInfoOffset::spec_parse(s, off) == h,
    {
        let ser = h.spec_ser();
        let c0 = seq![1u8, h.track_info_type, 0u8, 0u8];
        let c1 = spec_u32_be(h.offset);
        let q0 = c0;
        let q1 = c0 + c1;
        assert(ser == q1);
        assert(c0.len() == 4);
        assert(c1.len() == 4);
        assert(q0.len() == 4);
        assert(q1.len() == 8);
        assert(s.subrange(off, off + 8) == q1);
        assert(s.subrange(off, off + 8) == q0 + c1);
        crate::bytes::lemma_split_suffix(s, off, q0, c1);
        assert(s.subrange(off + 4, off + 8) == c1);
        crate::bytes::lemma_read_u32_sub(s, off + 4, h.offset);
        let sub0 = s.subrange(off, off + 4);
        assert(s[off + 1] == sub0[1]);
    }
}

impl ChannelInfoOffset {
    /// Parsing inverts serialization.
    pub proof fn lemma_parse_of_ser(h: ChannelInfoOffset, s: Seq<u8>, off: int)
        requires
            0 <= off,
            off + 8 <= s.len(),
            s.subrange(off, off + 8) == h.spec_ser(),
        ensures
            ChannelInfoOffset::spec_parse(s, off) == h,
    {
        let ser = h.spec_ser();
        let c0 = spec_u32_be(0x0100_0000);
        let c1 = spec_u32_be(h.offset);
        let q0 = c0;
        let q1 = c0 + c1;
        assert(ser == q1);
        assert(c0.len() == 4);
        assert(c1.len() == 4);
        assert(q0.len() == 4);
        assert(q1.len() == 8);
        assert(s.subrange(off, off + 8) == q1);
        assert(s.subrange(off, off + 8) == q0 + c1);
        crate::bytes::lemma_split_suffix(s, off, q0, c1);
        assert(s.subrange(off + 4, off + 8) == c1);
        crate::bytes::lemma_read_u32_sub(s, off + 0, 0x0100_0000u32);
        crate::bytes::lemma_read_u32_sub(s, off + 4, h.offset);
    }
}

impl TrackDescription {
    /// Parsing inverts serialization for the version the track was written
    /// with; a mono track's stored right channel id reads back as 0.
    pub proof fn lemma_parse_of_ser(t: TrackDescription, s: Seq<u8>, off: int)
        requires
            0 <= off,
            off + t.spec_byte_len() <= s.len(),
            s.subrange(off, off + t.spec_byte_len()) == t.spec_ser(),
        ensures
            TrackDescription::spec_can_parse(s, off, t.spec_version()),
            TrackDescription::spec_parse(s, off, t.spec_version()) == t,
    {
        let ser = t.spec_ser();
        let tail = seq![
            t.channels.spec_channels(),
            t.channels.spec_left(),
            t.channels.spec_right(),
            0u8,
        ];
        let b = if t.spec_version() == 1 {
            off + 8
        } else {
            off
        };
        if t.spec_version() == 1 {
            let v1 = t.info_v1->0;
            let c0 = seq![v1.track_volume, v1.track_panning];
            let c1 = zeros(6);
            assert(ser == c0 + c1 + tail);
            assert(c0.len() == 2 && c1.len() == 6 && tail.len() == 4);
            assert((c0 + c1).len() == 8);
            assert(s.subrange(off, off + 12) == (c0 + c1) + tail);
            crate::bytes::lemma_split_suffix(s, off, c0 + c1, tail);
            assert(s.subrange(off + 8, off + 12) == tail);
            crate::bytes::lemma_split_suffix(s, off, c0, c1);
            assert(s.subrange(off, off + 2) == c0);
            let subv = s.subrange(off, off + 2);
            assert(s[off] == subv[0] && s[off + 1] == subv[1]);
        } else {
            assert(ser == tail);
        }
        let subt = s.subrange(b, b + 4);
        assert(subt =~= tail);
        assert(s[b] == subt[0] && s[b + 1] == subt[1] && s[b + 2] == subt[2]);
        match t.channels {
            Channels::Mono(c) => {
                assert(t.channels.spec_channels() == 1);
            },
            Channels::Stereo(l, r) => {
                assert(t.channels.spec_channels() == 2);
            },
        }
    }
}

} // verus!
