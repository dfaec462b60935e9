//! Reading 16-bit PCM WAV input for the encoder: header checking and
//! de-interleaving the sample frames into per-channel streams.

use vstd::prelude::*;

use crate::bytes::{read_i16_le_at, read_u16_le_at, read_u32_le_at, spec_read_i16_le, spec_read_u16_le, spec_read_u32_le};

verus! {

/// Why a WAV input was refused.
#[derive(Debug, Clone, Copy, PartialEq, Eq, Structural)]
pub enum WavError {
    NotRiff,
    NotWave,
    NotFmt,
    NotPcm,
    NoChannels,
    TooShort,
    RateTooHigh,
}

/// The fields of the `fmt ` chunk.
#[derive(Debug, Clone, Copy, PartialEq, Eq, Structural)]
pub struct WavHeader {
    pub audio_format: u16,
    pub channel_count: u16,
    pub sampling_rate: u32,
    pub bytes_per_second: u32,
    pub bytes_per_sample: u16,
    pub bits_per_sample: u16,
}

/// The leading RIFF container words.
#[derive(Debug, Clone, Copy, PartialEq)]
pub struct RiffWavHeader {
    pub magic: [u8; 4],
    pub filesize: u32,
    pub wav: [u8; 4],
    pub fmt: [u8; 4],
}

impl RiffWavHeader {
    pub open spec fn spec_ok(&self) -> bool {
        &&& self.magic@ == seq![0x52u8, 0x49u8, 0x46u8, 0x46u8]
        &&& self.wav@ == seq![0x57u8, 0x41u8, 0x56u8, 0x45u8]
        &&& self.fmt@ == seq![0x66u8, 0x6Du8, 0x74u8, 0x20u8]
    }

    /// Check the three container tags: `RIFF`, `WAVE` and `fmt `.
    pub fn check(&self) -> (r: Result<(), WavError>)
        ensures
            r is Ok <==> self.spec_ok(),
            r == Err::<(), WavError>(WavError::NotRiff) <==> !(self.magic@ == seq![
                0x52u8,
                0x49u8,
                0x46u8,
                0x46u8,
            ]),
    {
        if self.magic[0] != 0x52 || self.magic[1] != 0x49 || self.magic[2] != 0x46
            || self.magic[3] != 0x46 {
            proof {
                assert(self.magic@ != seq![0x52u8, 0x49u8, 0x46u8, 0x46u8]);
            }
            return Err(WavError::NotRiff);
        }
        proof {
            assert(self.magic@ =~= seq![0x52u8, 0x49u8, 0x46u8, 0x46u8]);
        }
        if self.wav[0] != 0x57 || self.wav[1] != 0x41 || self.wav[2] != 0x56 || self.wav[3] != 0x45
            {
            proof {
                assert(self.wav@ != seq![0x57u8, 0x41u8, 0x56u8, 0x45u8]);
            }
            return Err(WavError::NotWave);
        }
        proof {
            assert(self.wav@ =~= seq![0x57u8, 0x41u8, 0x56u8, 0x45u8]);
        }
        if self.fmt[0] != 0x66 || self.fmt[1] != 0x6D || self.fmt[2] != 0x74 || self.fmt[3] != 0x20
            {
            proof {
                assert(self.fmt@ != seq![0x66u8, 0x6Du8, 0x74u8, 0x20u8]);
            }
            return Err(WavError::NotFmt);
        }
        proof {
            assert(self.fmt@ =~= seq![0x66u8, 0x6Du8, 0x74u8, 0x20u8]);
        }
        Ok(())
    }
}

/// De-interleaved 16-bit PCM: one stream per channel and the sample rate.
pub struct WavData {
    pub channels: Vec<Vec<i16>>,
    pub sample_rate: u16,
}

/// What a WAV input must look like to be accepted: the three container
/// tags, the PCM format word, a sample rate that fits 16 bits, at least one
/// channel, and enough bytes behind the chunk header for every whole frame.
pub open spec fn spec_wav_ok(s: Seq<u8>) -> bool {
    &&& s.len() >= 44
    &&& s[0] == 0x52u8 && s[1] == 0x49u8 && s[2] == 0x46u8 && s[3] == 0x46u8
    &&& s[8] == 0x57u8 && s[9] == 0x41u8 && s[10] == 0x56u8 && s[11] == 0x45u8
    &&& s[12] == 0x66u8 && s[13] == 0x6Du8 && s[14] == 0x74u8 && s[15] == 0x20u8
    &&& spec_read_u16_le(s, 20) == 1
    &&& spec_read_u32_le(s, 24) <= 0xFFFF
    &&& spec_read_u16_le(s, 22) > 0
    &&& 44 + (spec_read_u32_le(s, 40) / (spec_read_u16_le(s, 22) * 2)) * spec_read_u16_le(s, 22)
        * 2 <= s.len()
}

/// Parse a 16-bit PCM WAV file held in memory: check the RIFF tags and the
/// PCM format word, then split the interleaved frames behind the chunk
/// header into per-channel streams. Frames are little-endian, channel by
/// channel within each frame.
pub fn read_channels_from_wav(data: &[u8]) -> (r: Result<WavData, WavError>)
    ensures
        r is Ok <==> spec_wav_ok(data@),
        r matches Ok(w) ==> ({
            let nc = spec_read_u16_le(data@, 22);
            let frames = spec_read_u32_le(data@, 40) as int / (nc * 2);
            &&& nc > 0
            &&& w.channels@.len() == nc
            &&& w.sample_rate == spec_read_u32_le(data@, 24)
            &&& (forall|c: int|
                0 <= c < nc ==> (#[trigger] w.channels@[c])@.len() == frames)
            &&& (forall|c: int, f: int|
                0 <= c < nc && 0 <= f < frames ==> (#[trigger] w.channels@[c]@[f])
                    == spec_read_i16_le(data@, 44 + (f * nc + c) * 2))
        }),
{
    if data.len() < 44 {
        return Err(WavError::TooShort);
    }
    let riff = RiffWavHeader {
        magic: [data[0], data[1], data[2], data[3]],
        filesize: read_u32_le_at(data, 4),
        wav: [data[8], data[9], data[10], data[11]],
        fmt: [data[12], data[13], data[14], data[15]],
    };
    proof {
        assert(riff.magic@ =~= seq![data@[0], data@[1], data@[2], data@[3]]);
        assert(riff.wav@ =~= seq![data@[8], data@[9], data@[10], data@[11]]);
        assert(riff.fmt@ =~= seq![data@[12], data@[13], data@[14], data@[15]]);
    }
    match riff.check() {
        Ok(()) => (),
        Err(e) => {
            return Err(e);
        },
    }
    let header = WavHeader {
        audio_format: read_u16_le_at(data, 20),
        channel_count: read_u16_le_at(data, 22),
        sampling_rate: read_u32_le_at(data, 24),
        bytes_per_second: read_u32_le_at(data, 28),
        bytes_per_sample: read_u16_le_at(data, 32),
        bits_per_sample: read_u16_le_at(data, 34),
    };
    if header.audio_format != 1 {
        return Err(WavError::NotPcm);
    }
    if header.sampling_rate > 0xFFFF {
        return Err(WavError::RateTooHigh);
    }
    let nc = header.channel_count as usize;
    if nc == 0 {
        return Err(WavError::NoChannels);
    }
    let chunksize = read_u32_le_at(data, 40) as usize;
    let frames = chunksize / nc / 2;
    proof {
        vstd::arithmetic::div_mod::lemma_div_denominator(chunksize as int, nc as int, 2);
        assert(frames as int == spec_read_u32_le(data@, 40) as int / (nc as int * 2));
        vstd::arithmetic::div_mod::lemma_fundamental_div_mod(chunksize as int, nc as int * 2);
        assert(frames as int * (nc as int) * 2 <= chunksize as int) by (nonlinear_arith)
            requires
                frames as int == chunksize as int / (nc as int * 2),
                chunksize as int == (nc as int * 2) * (chunksize as int / (nc as int * 2)) + (
                chunksize as int % (nc as int * 2)),
                chunksize as int % (nc as int * 2) >= 0,
                nc as int >= 1,
        ;
    }
    let needed = frames * nc * 2;
    if needed > data.len() - 44 {
        return Err(WavError::TooShort);
    }
    let mut channels: Vec<Vec<i16>> = Vec::new();
    let mut c: usize = 0;
    while c < nc
        invariant
            c <= nc,
            channels@.len() == c,
            forall|k: int| 0 <= k < c ==> (#[trigger] channels@[k])@.len() == 0,
        decreases nc - c,
    {
        channels.push(Vec::new());
        c = c + 1;
    }
    let dlen = data.len();
    let mut f: usize = 0;
    while f < frames
        invariant
            f <= frames,
            nc >= 1,
            nc == spec_read_u16_le(data@, 22),
            dlen == data@.len(),
            dlen >= 44 + frames * nc * 2,
            channels@.len() == nc,
            forall|k: int| 0 <= k < nc ==> (#[trigger] channels@[k])@.len() == f,
            forall|k: int, g: int|
                0 <= k < nc && 0 <= g < f ==> (#[trigger] channels@[k]@[g]) == spec_read_i16_le(
                    data@,
                    44 + (g * nc + k) * 2,
                ),
        decreases frames - f,
    {
        let mut c: usize = 0;
        while c < nc
            invariant
                c <= nc,
                f < frames,
                nc >= 1,
                nc == spec_read_u16_le(data@, 22),
                dlen == data@.len(),
                dlen >= 44 + frames * nc * 2,
                channels@.len() == nc,
                forall|k: int| c <= k < nc ==> (#[trigger] channels@[k])@.len() == f,
                forall|k: int| 0 <= k < c ==> (#[trigger] channels@[k])@.len() == f + 1,
                forall|k: int, g: int|
                    0 <= k < nc && 0 <= g < f ==> (#[trigger] channels@[k]@[g])
                        == spec_read_i16_le(data@, 44 + (g * nc + k) * 2),
                forall|k: int|
                    0 <= k < c ==> (#[trigger] channels@[k]@[f as int]) == spec_read_i16_le(
                        data@,
                        44 + (f * nc + k) * 2,
                    ),
            decreases nc - c,
        {
            proof {
                assert(f * nc <= frames * nc && f * nc + c <= frames * nc && (f * nc + c) * 2 + 2
                    <= frames * nc * 2) by (nonlinear_arith)
                    requires
                        0 <= f,
                        f + 1 <= frames as int,
                        0 <= c,
                        c + 1 <= nc as int,
                ;
                assert(frames * nc <= frames * nc * 2) by (nonlinear_arith)
                    requires
                        frames as int * (nc as int) >= 0,
                ;
            }
            let off = 44 + (f * nc + c) * 2;
            let v: i16 = read_i16_le_at(data, off);
            let mut chan = channels.remove(c);
            chan.push(v);
            channels.insert(c, chan);
            c = c + 1;
        }
        f = f + 1;
    }
    Ok(WavData { channels, sample_rate: header.sampling_rate as u16 })
}

} // verus!
