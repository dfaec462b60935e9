//! The stream encoder: drives the per-packet ADPCM encoder over whole
//! channels, packing 1024 packets (8192 bytes, 14336 samples) per block,
//! recording the seek-table history pair at every block start and the
//! predictor/scale bytes at the stream start and at the loop point.

use vstd::prelude::*;

use crate::brstm::{spec_block_offset, BrstmInfoWithData, BrstmInformation};
use crate::bytes::{push_bytes, push_zeros, spec_align32, spec_i16_be};
use crate::gc_dspadpcm::{dsp_encode_frame, spec_flat_coefs, PACKET_BYTES, PACKET_SAMPLES};
use crate::structs::{AdpcmChannelInformation, Channels, Head1, TrackDescription};

verus! {

/// Bytes per full block, per channel.
pub const BLOCK_SIZE: usize = 8192;

/// Samples per full block, per channel.
pub const BLOCK_SAMPLES: usize = 14336;

/// Division rounding up.
pub fn div_ceil(lhs: usize, rhs: usize) -> (r: usize)
    requires
        rhs >= 1,
    ensures
        r == (if lhs % rhs > 0 {
            lhs as int / rhs as int + 1
        } else {
            lhs as int / rhs as int
        }),
{
    let d = lhs / rhs;
    let r = lhs % rhs;
    if r > 0 {
        proof {
            assert(rhs >= 2) by {
                if rhs == 1 {
                    assert(lhs as int % 1 == 0) by (nonlinear_arith);
                }
            }
            assert(lhs >= 1) by {
                if lhs == 0 {
                    assert(0int % (rhs as int) == 0) by (nonlinear_arith)
                        requires
                            rhs as int >= 1,
                    ;
                }
            }
            vstd::arithmetic::div_mod::lemma_div_is_strictly_smaller(lhs as int, rhs as int);
        }
        d + 1
    } else {
        d
    }
}

/// The index of the last packet of a final block holding `rem` samples.
pub open spec fn spec_last_packet(rem: int) -> int {
    if rem <= 14 {
        0
    } else {
        (rem - 1) / 14
    }
}

/// The unpadded byte count of a final block holding `rem` samples.
pub open spec fn spec_chunk_bytes(rem: int) -> int {
    8 * (spec_last_packet(rem) + 1)
}

/// The number of blocks a stream of `total` samples encodes to: every full
/// run of 14336 samples fills one block, and one final block holds the rest
/// (an empty final block when the stream length is an exact multiple).
pub open spec fn spec_num_blocks(total: int) -> int {
    total / 14336 + 1
}

/// The emitted byte length of one channel's chunk of block `b`.
pub open spec fn spec_chunk_size(b: int, nb: int, rem: int) -> int {
    if b == nb - 1 {
        spec_align32(spec_chunk_bytes(rem))
    } else {
        8192
    }
}

/// Where channel `k`'s chunk of block `b` begins in the emitted DATA bytes.
pub open spec fn spec_chunk_start(n: int, b: int, k: int, nb: int, rem: int) -> int {
    b * n * 8192 + k * spec_chunk_size(b, nb, rem)
}

/// The number of packets one channel's whole stream encodes to.
pub open spec fn spec_total_packets(nb: int, rem: int) -> int {
    1024 * (nb - 1) + spec_last_packet(rem) + 1
}

/// The state of one channel's encoder after it has produced `b` blocks as
/// channel `k` of `n`: the first packet's header byte was captured with the
/// first block; the loop packet's header byte is captured once the packet
/// holding the loop point has been emitted, and until then the packets
/// still to go before it are counted down.
pub open spec fn enc_block_state(
    e: BrstmStreamEncoder,
    data: Seq<u8>,
    n: int,
    b: int,
    k: int,
    lp: int,
    nb: int,
    rem: int,
) -> bool {
    &&& e.spec_is_first() == (b == 0)
    &&& (b > 0 ==> 0 <= k * spec_chunk_size(0, nb, rem) && k * spec_chunk_size(0, nb, rem)
        < data.len() && e.spec_initial_predictor() == data[k * spec_chunk_size(0, nb, rem)])
    &&& ({
        let q = lp / 14;
        let processed = if b < nb {
            1024 * b
        } else {
            spec_total_packets(nb, rem)
        };
        if q < processed {
            &&& e.spec_loop_state() is None
            &&& 0 <= spec_chunk_start(n, q / 1024, k, nb, rem) + 8 * (q % 1024)
            &&& spec_chunk_start(n, q / 1024, k, nb, rem) + 8 * (q % 1024) < data.len()
            &&& e.spec_loop_predictor() == data[spec_chunk_start(n, q / 1024, k, nb, rem) + 8 * (
            q % 1024)]
        } else {
            &&& e.spec_loop_state() == Some((lp - 14 * processed) as usize)
            &&& e.spec_loop_predictor() == 0
        }
    })
}

/// The packet holding sample `lp` is packet `(lp % 14336) / 14` of block
/// `lp / 14336`: the two shapes of the loop-packet position agree.
pub proof fn lemma_loop_packet_position(lp: int)
    requires
        lp >= 0,
    ensures
        (lp / 14) / 1024 == lp / 14336,
        (lp / 14) % 1024 == (lp % 14336) / 14,
{
    let bl = lp / 14336;
    let r36 = lp % 14336;
    vstd::arithmetic::div_mod::lemma_fundamental_div_mod(lp, 14336);
    vstd::arithmetic::div_mod::lemma_fundamental_div_mod(r36, 14);
    assert(lp == 14 * (1024 * bl + r36 / 14) + r36 % 14) by (nonlinear_arith)
        requires
            lp == 14336 * bl + r36,
            r36 == 14 * (r36 / 14) + r36 % 14,
    ;
    assert(0 <= r36 % 14 < 14);
    assert(bl >= 0) by {
        vstd::arithmetic::div_mod::lemma_div_pos_is_pos(lp, 14336);
    }
    assert(r36 / 14 >= 0) by {
        vstd::arithmetic::div_mod::lemma_div_pos_is_pos(r36, 14);
    }
    vstd::arithmetic::div_mod::lemma_fundamental_div_mod_converse(
        lp,
        14,
        1024 * bl + r36 / 14,
        r36 % 14,
    );
    assert(lp / 14 == 1024 * bl + r36 / 14);
    assert(r36 / 14 <= 1023) by {
        vstd::arithmetic::div_mod::lemma_div_is_ordered(r36, 14335, 14);
    }
    vstd::arithmetic::div_mod::lemma_fundamental_div_mod_converse(lp / 14, 1024, bl, r36 / 14);
}

/// The captured-byte positions of an encoder state survive appends to the
/// stream: growing the DATA bytes preserves the state.
proof fn lemma_state_grow(
    e: BrstmStreamEncoder,
    data0: Seq<u8>,
    data1: Seq<u8>,
    n: int,
    b: int,
    k: int,
    lp: int,
    nb: int,
    rem: int,
)
    requires
        enc_block_state(e, data0, n, b, k, lp, nb, rem),
        data1.len() >= data0.len(),
        data1.subrange(0, data0.len() as int) == data0,
    ensures
        enc_block_state(e, data1, n, b, k, lp, nb, rem),
{
    if b > 0 {
        let pos = k * spec_chunk_size(0, nb, rem);
        assert(data1.subrange(0, data0.len() as int)[pos] == data1[pos]);
    }
    let q = lp / 14;
    let processed = if b < nb {
        1024 * b
    } else {
        spec_total_packets(nb, rem)
    };
    if q < processed {
        let pos = spec_chunk_start(n, q / 1024, k, nb, rem) + 8 * (q % 1024);
        assert(data1.subrange(0, data0.len() as int)[pos] == data1[pos]);
    }
}

/// One pull advances an encoder's state by one block: the first packet's
/// header byte is captured with block 0, and the loop packet's header byte
/// with the block that holds it.
#[verifier::rlimit(100)]
#[verifier::spinoff_prover]
proof fn lemma_state_step(
    pre: BrstmStreamEncoder,
    post: BrstmStreamEncoder,
    data0: Seq<u8>,
    data1: Seq<u8>,
    n: int,
    b: int,
    k: int,
    lp: int,
    nb: int,
    rem: int,
    rem_before: int,
)
    requires
        enc_block_state(pre, data0, n, b, k, lp, nb, rem),
        0 <= k < n,
        0 <= lp <= 0xFFFF_FFFF,
        0 <= rem < 14336,
        1 <= nb,
        0 <= b < nb,
        rem_before == 14336 * (nb - 1 - b) + rem,
        data0.len() == spec_chunk_start(n, b, k, nb, rem),
        data1.subrange(0, data0.len() as int) == data0,
        data1.len() == data0.len() + (if b == nb - 1 {
            spec_align32(spec_chunk_bytes(rem))
        } else {
            8192int
        }),
        !post.spec_is_first(),
        pre.spec_is_first() ==> post.spec_initial_predictor() == data1[data0.len() as int],
        !pre.spec_is_first() ==> post.spec_initial_predictor() == pre.spec_initial_predictor(),
        ({
            let processed = if rem_before >= 14336 {
                1024int
            } else {
                spec_last_packet(rem_before) + 1
            };
            match pre.spec_loop_state() {
                Some(lpc) => {
                    if lpc as int / 14 < processed {
                        post.spec_loop_state() is None && post.spec_loop_predictor() == data1[
                            data0.len() + 8 * (lpc as int / 14)
                        ]
                    } else {
                        post.spec_loop_state() == Some((lpc - 14 * processed) as usize)
                            && post.spec_loop_predictor() == pre.spec_loop_predictor()
                    }
                },
                None => post.spec_loop_state() is None && post.spec_loop_predictor()
                    == pre.spec_loop_predictor(),
            }
        }),
    ensures
        enc_block_state(post, data1, n, b + 1, k, lp, nb, rem),
{
    assert(spec_last_packet(rem) >= 0) by {
        if rem > 14 {
            vstd::arithmetic::div_mod::lemma_div_pos_is_pos(rem - 1, 14);
        }
    }
    assert(spec_last_packet(rem) <= 1023) by {
        if rem > 14 {
            vstd::arithmetic::div_mod::lemma_div_is_ordered(rem - 1, 14334, 14);
        }
    }
    crate::bytes::lemma_align32(spec_chunk_bytes(rem));
    let is_final = b == nb - 1;
    assert(is_final ==> rem_before == rem);
    assert(!is_final ==> rem_before >= 14336) by {
        if !is_final {
            assert(14336 * (nb - 1 - b) >= 14336) by (nonlinear_arith)
                requires
                    nb - 1 - b >= 1,
            ;
        }
    }
    let chunkp = if rem_before >= 14336 {
        1024int
    } else {
        spec_last_packet(rem_before) + 1
    };
    assert(chunkp == (if is_final {
        spec_last_packet(rem) + 1
    } else {
        1024int
    }));
    assert(1 <= chunkp <= 1024);
    let q = lp / 14;
    assert(q >= 0) by {
        vstd::arithmetic::div_mod::lemma_div_pos_is_pos(lp, 14);
    }
    let processed0 = 1024 * b;
    let processed1 = if b + 1 < nb {
        1024 * (b + 1)
    } else {
        spec_total_packets(nb, rem)
    };
    assert(processed1 == 1024 * b + chunkp);
    // initial predictor
    if b == 0 {
        assert(pre.spec_is_first());
        assert(data0.len() == 0 * n * 8192 + k * spec_chunk_size(0, nb, rem));
        assert(post.spec_initial_predictor() == data1[k * spec_chunk_size(0, nb, rem)]);
        assert(k * spec_chunk_size(0, nb, rem) < data1.len());
        assert(0 <= k * spec_chunk_size(0, nb, rem));
    } else {
        assert(!pre.spec_is_first());
        let pos0 = k * spec_chunk_size(0, nb, rem);
        assert(data1.subrange(0, data0.len() as int)[pos0] == data1[pos0]);
    }
    // loop capture
    if q < processed0 {
        assert(pre.spec_loop_state() is None);
        let pos = spec_chunk_start(n, q / 1024, k, nb, rem) + 8 * (q % 1024);
        assert(data1.subrange(0, data0.len() as int)[pos] == data1[pos]);
        assert(q < processed1);
    } else {
        let lp_cur = lp - 14336 * b;
        assert(14 * processed0 == 14336 * b);
        vstd::arithmetic::div_mod::lemma_fundamental_div_mod(lp, 14);
        let r14 = lp % 14;
        assert(lp_cur >= 0) by {
            assert(14 * q >= 14 * processed0) by (nonlinear_arith)
                requires
                    q >= processed0,
            ;
        }
        assert(pre.spec_loop_state() == Some((lp - 14 * processed0) as usize));
        let lpc = (lp - 14 * processed0) as usize;
        assert(lpc as int == lp_cur);
        assert(lp_cur == 14 * (q - 1024 * b) + r14);
        assert(q - 1024 * b >= 0);
        vstd::arithmetic::div_mod::lemma_fundamental_div_mod_converse(
            lp_cur,
            14,
            q - 1024 * b,
            r14,
        );
        assert(lpc as int / 14 == q - 1024 * b);
        if q - 1024 * b < chunkp {
            // the loop packet lies in this chunk
            assert(post.spec_loop_state() is None);
            assert(post.spec_loop_predictor() == data1[data0.len() + 8 * (q - 1024 * b)]);
            vstd::arithmetic::div_mod::lemma_fundamental_div_mod_converse(
                q,
                1024,
                b,
                q - 1024 * b,
            );
            assert(q / 1024 == b && q % 1024 == q - 1024 * b);
            assert(spec_chunk_start(n, q / 1024, k, nb, rem) == data0.len());
            assert(q < processed1);
            assert(8 * (q % 1024) < 8 * chunkp);
            assert(8 * chunkp <= data1.len() - data0.len()) by {
                if is_final {
                    assert(8 * (spec_last_packet(rem) + 1) == spec_chunk_bytes(rem));
                }
            }
            assert(0 <= spec_chunk_start(n, q / 1024, k, nb, rem) + 8 * (q % 1024));
        } else {
            assert(post.spec_loop_state() == Some((lpc - 14 * chunkp) as usize));
            assert(post.spec_loop_predictor() == 0);
            assert(q >= processed1);
            assert(lp_cur - 14 * chunkp == lp - 14 * processed1);
            assert(lp_cur - 14 * chunkp >= 0) by {
                assert(14 * (q - 1024 * b) >= 14 * chunkp) by (nonlinear_arith)
                    requires
                        q - 1024 * b >= chunkp,
                ;
            }
            assert((lpc - 14 * chunkp) as usize as int == lp - 14 * processed1);
        }
    }
}

/// The encoder state of one channel: the input samples with a cursor, the
/// rolling reconstructed history pair, the coefficient table, and the
/// predictor/scale bytes captured at the stream start and loop point.
pub struct BrstmStreamEncoder {
    samples: Vec<i16>,
    pos: usize,
    samples_until_loop_point: Option<usize>,
    prev_samples: [i16; 2],
    is_first: bool,
    coefs: [[i16; 2]; 8],
    initial_predictor: u8,
    loop_predictor: u8,
    loop_history_samples: [i16; 2],
}

impl BrstmStreamEncoder {
    /// The samples not yet consumed.
    pub closed spec fn spec_rem(&self) -> int {
        self.samples@.len() - self.pos
    }

    pub closed spec fn spec_samples(&self) -> Seq<i16> {
        self.samples@
    }

    pub closed spec fn spec_pos(&self) -> int {
        self.pos as int
    }

    pub closed spec fn spec_coefs(&self) -> [[i16; 2]; 8] {
        self.coefs
    }

    pub closed spec fn spec_loop_state(&self) -> Option<usize> {
        self.samples_until_loop_point
    }

    pub closed spec fn spec_is_first(&self) -> bool {
        self.is_first
    }

    pub closed spec fn spec_initial_predictor(&self) -> u8 {
        self.initial_predictor
    }

    pub closed spec fn spec_loop_predictor(&self) -> u8 {
        self.loop_predictor
    }

    pub closed spec fn spec_prev_samples(&self) -> Seq<i16> {
        self.prev_samples@
    }

    pub closed spec fn spec_loop_history(&self) -> Seq<i16> {
        self.loop_history_samples@
    }

    /// Start encoding a channel with the given coefficient table; the loop
    /// point is a sample index (0 for streams without one). The two samples
    /// right before the loop point are kept for the loop history, zero when
    /// the loop point is at the very start.
    pub fn init(samples: &[i16], loop_point: u32, coefs: [[i16; 2]; 8]) -> (r: Self)
        ensures
            r.spec_samples() == samples@,
            r.spec_pos() == 0,
            r.spec_rem() == samples@.len(),
            r.spec_coefs() == coefs,
            r.spec_loop_state() == Some(loop_point as usize),
            r.spec_is_first(),
            r.spec_prev_samples() == seq![0i16, 0i16],
            r.spec_initial_predictor() == 0,
            r.spec_loop_predictor() == 0,
            r.spec_loop_history() == seq![
                (if loop_point >= 2 && loop_point - 2 < samples@.len() {
                    samples@[loop_point - 2]
                } else {
                    0i16
                }),
                (if loop_point >= 1 && loop_point - 1 < samples@.len() {
                    samples@[loop_point - 1]
                } else {
                    0i16
                }),
            ],
    {
        let lp = loop_point as usize;
        let h1: i16 = if lp >= 2 && lp - 2 < samples.len() {
            samples[lp - 2]
        } else {
            0
        };
        let h2: i16 = if lp >= 1 && lp - 1 < samples.len() {
            samples[lp - 1]
        } else {
            0
        };
        let mut owned: Vec<i16> = Vec::new();
        let n = samples.len();
        let mut i: usize = 0;
        while i < n
            invariant
                i <= n,
                n == samples@.len(),
                owned@ == samples@.subrange(0, i as int),
            decreases n - i,
        {
            owned.push(samples[i]);
            i = i + 1;
            proof {
                assert(owned@ =~= samples@.subrange(0, i as int));
            }
        }
        proof {
            assert(samples@.subrange(0, n as int) =~= samples@);
        }
        let r = BrstmStreamEncoder {
            samples: owned,
            pos: 0,
            samples_until_loop_point: Some(lp),
            prev_samples: [0, 0],
            is_first: true,
            coefs,
            initial_predictor: 0,
            loop_predictor: 0,
            loop_history_samples: [h1, h2],
        };
        proof {
            assert(r.spec_prev_samples() =~= seq![0i16, 0i16]);
            assert(r.spec_loop_history() =~= seq![h1, h2]);
        }
        r
    }

    /// Encode one block: emit the history pair into the seek table, then
    /// pack 1024 packets (zero-padding short input). Returns `None` while a
    /// full block's worth of input remains afterwards; the final block
    /// returns its unpadded byte count and sample count, with the DATA bytes
    /// zero-padded to a 32-byte boundary.
    #[verifier::rlimit(100)]
    #[verifier::spinoff_prover]
    pub fn pull_chunk(&mut self, adpcm_bytes: &mut Vec<u8>, data_bytes: &mut Vec<u8>) -> (r:
        Option<(usize, usize)>)
        requires
            old(self).spec_rem() >= 0,
        ensures
            final(self).spec_rem() >= 0,
            final(self).spec_samples() == old(self).spec_samples(),
            final(self).spec_coefs() == old(self).spec_coefs(),
            final(self).spec_loop_history() == old(self).spec_loop_history(),
            !final(self).spec_is_first(),
            final(adpcm_bytes)@ == old(adpcm_bytes)@ + spec_i16_be(
                old(self).spec_prev_samples()[0],
            ) + spec_i16_be(old(self).spec_prev_samples()[1]),
            final(self).spec_prev_samples() == seq![
                (if old(self).spec_pos() + 14334 < old(self).spec_samples().len() {
                    old(self).spec_samples()[old(self).spec_pos() + 14334]
                } else {
                    0i16
                }),
                (if old(self).spec_pos() + 14335 < old(self).spec_samples().len() {
                    old(self).spec_samples()[old(self).spec_pos() + 14335]
                } else {
                    0i16
                }),
            ],
            final(data_bytes)@.subrange(0, old(data_bytes)@.len() as int) == old(data_bytes)@,
            r is None <==> old(self).spec_rem() >= 14336,
            r is None ==> final(data_bytes)@.len() == old(data_bytes)@.len() + 8192
                && final(self).spec_pos() == old(self).spec_pos() + 14336,
            r matches Some(out) ==> out.1 == old(self).spec_rem() && out.0 == spec_chunk_bytes(
                old(self).spec_rem(),
            ) && final(data_bytes)@.len() == old(data_bytes)@.len() + spec_align32(
                spec_chunk_bytes(old(self).spec_rem()),
            ),
            old(self).spec_is_first() ==> final(self).spec_initial_predictor()
                == final(data_bytes)@[old(data_bytes)@.len() as int],
            !old(self).spec_is_first() ==> final(self).spec_initial_predictor()
                == old(self).spec_initial_predictor(),
            match old(self).spec_loop_state() {
                Some(lp) => {
                    let processed = if old(self).spec_rem() >= 14336 {
                        1024int
                    } else {
                        spec_last_packet(old(self).spec_rem()) + 1
                    };
                    if lp as int / 14 < processed {
                        final(self).spec_loop_state() is None && final(self).spec_loop_predictor()
                            == final(data_bytes)@[old(data_bytes)@.len() + 8 * (lp as int / 14)]
                    } else {
                        final(self).spec_loop_state() == Some((lp - 14 * processed) as usize)
                            && final(self).spec_loop_predictor()
                            == old(self).spec_loop_predictor()
                    }
                },
                None => final(self).spec_loop_state() is None && final(self).spec_loop_predictor()
                    == old(self).spec_loop_predictor(),
            },
    {
        let ghost old_dlen = data_bytes@.len() as int;
        let ghost old_rem = self.spec_rem();
        let len = self.samples.len();

        let mut conv_samps: [i16; 16] = [0; 16];
        conv_samps[0] = self.prev_samples[0];
        conv_samps[1] = self.prev_samples[1];

        push_bytes(adpcm_bytes, i16_be_pair(self.prev_samples[0]).as_slice());
        push_bytes(adpcm_bytes, i16_be_pair(self.prev_samples[1]).as_slice());
        proof {
            assert(adpcm_bytes@ =~= old(adpcm_bytes)@ + spec_i16_be(
                old(self).spec_prev_samples()[0],
            ) + spec_i16_be(old(self).spec_prev_samples()[1]));
        }
        self.prev_samples[0] = if BLOCK_SAMPLES - 2 < len - self.pos {
            self.samples[self.pos + (BLOCK_SAMPLES - 2)]
        } else {
            0
        };
        self.prev_samples[1] = if BLOCK_SAMPLES - 1 < len - self.pos {
            self.samples[self.pos + (BLOCK_SAMPLES - 1)]
        } else {
            0
        };
        let ghost prev_now = seq![
            (if old(self).spec_pos() + 14334 < old(self).spec_samples().len() {
                old(self).spec_samples()[old(self).spec_pos() + 14334]
            } else {
                0i16
            }),
            (if old(self).spec_pos() + 14335 < old(self).spec_samples().len() {
                old(self).spec_samples()[old(self).spec_pos() + 14335]
            } else {
                0i16
            }),
        ];
        proof {
            assert(self.prev_samples@ =~= prev_now);
        }

        let mut p: usize = 0;
        while p < 1024
            invariant
                p <= 1024,
                len == self.samples@.len(),
                self.pos == old(self).spec_pos() + 14 * p,
                self.pos <= len,
                old_rem == old(self).spec_rem(),
                old_rem - 14 * p == self.spec_rem(),
                p < 1024 ==> old_rem - 14 * p >= 0,
                p == 1024 ==> old_rem >= 14336,
                old_rem >= 14 * p,
                0 < p < 1024 ==> old_rem >= 14 * p + 1,
                data_bytes@.len() == old_dlen + 8 * p,
                data_bytes@.subrange(0, old_dlen) == old(data_bytes)@,
                old_dlen == old(data_bytes)@.len(),
                self.samples@ == old(self).spec_samples(),
                self.coefs == old(self).spec_coefs(),
                self.loop_history_samples@ == old(self).spec_loop_history(),
                self.prev_samples@ == prev_now,
                prev_now == seq![
                    (if old(self).spec_pos() + 14334 < old(self).spec_samples().len() {
                        old(self).spec_samples()[old(self).spec_pos() + 14334]
                    } else {
                        0i16
                    }),
                    (if old(self).spec_pos() + 14335 < old(self).spec_samples().len() {
                        old(self).spec_samples()[old(self).spec_pos() + 14335]
                    } else {
                        0i16
                    }),
                ],
                adpcm_bytes@ == old(adpcm_bytes)@ + spec_i16_be(old(self).spec_prev_samples()[0])
                    + spec_i16_be(old(self).spec_prev_samples()[1]),
                // start-of-stream predictor capture
                old(self).spec_is_first() && p == 0 ==> self.is_first,
                old(self).spec_is_first() && p > 0 ==> !self.is_first
                    && self.initial_predictor == data_bytes@[old_dlen],
                !old(self).spec_is_first() ==> !self.is_first && self.initial_predictor
                    == old(self).spec_initial_predictor(),
                // loop-point predictor capture
                match old(self).spec_loop_state() {
                    Some(lp) => {
                        if lp as int / 14 < p {
                            self.samples_until_loop_point is None && self.loop_predictor
                                == data_bytes@[old_dlen + 8 * (lp as int / 14)]
                        } else {
                            self.samples_until_loop_point == Some((lp - 14 * p) as usize)
                                && self.loop_predictor == old(self).spec_loop_predictor()
                        }
                    },
                    None => self.samples_until_loop_point is None && self.loop_predictor
                        == old(self).spec_loop_predictor(),
                },
            decreases 1024 - p,
        {
            let mut t: usize = 0;
            while t < 14
                invariant
                    t <= 14,
                    len == self.samples@.len(),
                    self.pos <= len,
                    conv_samps@.len() == 16,
                decreases 14 - t,
            {
                conv_samps[t + 2] = if t < len - self.pos {
                    self.samples[self.pos + t]
                } else {
                    0
                };
                t = t + 1;
            }

            let block = dsp_encode_frame(&mut conv_samps, PACKET_SAMPLES, &self.coefs);
            push_bytes(data_bytes, block.as_slice());
            proof {
                assert(data_bytes@[old_dlen + 8 * p] == block@[0]);
                assert(data_bytes@.subrange(0, old_dlen) =~= old(data_bytes)@);
            }

            if self.is_first {
                self.is_first = false;
                self.initial_predictor = block[0];
            }

            match self.samples_until_loop_point {
                Some(lp) => {
                    if lp < PACKET_SAMPLES {
                        self.samples_until_loop_point = None;
                        self.loop_predictor = block[0];
                        proof {
                            let lp0 = old(self).spec_loop_state()->0;
                            assert(lp == lp0 - 14 * p);
                            assert(lp0 as int / 14 == p) by (nonlinear_arith)
                                requires
                                    0 <= lp0 as int - 14 * p < 14,
                                    p >= 0,
                            ;
                        }
                    } else {
                        self.samples_until_loop_point = Some(lp - PACKET_SAMPLES);
                    }
                },
                None => {},
            }

            conv_samps[0] = conv_samps[14];
            conv_samps[1] = conv_samps[15];

            let remaining = len - self.pos;
            if remaining > PACKET_SAMPLES || (p == 1023 && remaining == PACKET_SAMPLES) {
                self.pos = self.pos + PACKET_SAMPLES;
            } else {
                let bytes_written = (p + 1) * PACKET_BYTES;
                let samples_out = p * PACKET_SAMPLES + remaining;
                let rem32 = bytes_written % 32;
                if rem32 != 0 {
                    push_zeros(data_bytes, 32 - rem32);
                }
                proof {
                    assert(data_bytes@.subrange(0, old_dlen) =~= old(data_bytes)@);
                    assert(old_rem == samples_out);
                    assert(old_rem < 14336);
                    assert(spec_last_packet(old_rem) == p) by {
                        if old_rem > 14 {
                            assert(p >= 1);
                            assert((old_rem - 1) / 14 == p) by (nonlinear_arith)
                                requires
                                    1 <= old_rem - 14 * p <= 14,
                                    p >= 0,
                            ;
                        }
                    }
                    assert(bytes_written == spec_chunk_bytes(old_rem));
                    crate::bytes::lemma_align32(bytes_written as int);
                    vstd::arithmetic::div_mod::lemma_fundamental_div_mod(
                        bytes_written as int,
                        32,
                    );
                    assert(data_bytes@.len() == old_dlen + spec_align32(bytes_written as int));
                }
                return Some((bytes_written, samples_out));
            }
            p = p + 1;
        }
        None
    }

    /// The channel information the finished encoder yields: the flattened
    /// coefficient table and the captured predictor bytes and loop history.
    pub fn get_adpcm_channel_info(&self) -> (r: AdpcmChannelInformation)
        ensures
            r.adpcm_coefficients@ == spec_flat_coefs(self.spec_coefs()),
            r.gain == 0,
            r.history_sample1 == 0,
            r.history_sample2 == 0,
            r.initial_predictor == self.spec_initial_predictor(),
            r.loop_predictor == self.spec_loop_predictor(),
            r.loop_history_sample1 == self.spec_loop_history()[0],
            r.loop_history_sample2 == self.spec_loop_history()[1],
            r.channel_adpcm_coefficients_offset == 0,
    {
        let mut adpcm_coefficients: [i16; 16] = [0; 16];
        let mut i: usize = 0;
        while i < 8
            invariant
                i <= 8,
                adpcm_coefficients@.len() == 16,
                forall|k: int|
                    0 <= k < 2 * i ==> adpcm_coefficients@[k] == spec_flat_coefs(self.coefs)[k],
            decreases 8 - i,
        {
            adpcm_coefficients[2 * i] = self.coefs[i][0];
            adpcm_coefficients[2 * i + 1] = self.coefs[i][1];
            proof {
                assert(spec_flat_coefs(self.coefs)[2 * i as int] == self.coefs@[i as int]@[0]);
                assert(spec_flat_coefs(self.coefs)[2 * i as int + 1] == self.coefs@[i as int]@[1]);
            }
            i = i + 1;
        }
        let r = AdpcmChannelInformation {
            channel_adpcm_coefficients_offset: 0,
            adpcm_coefficients,
            gain: 0,
            initial_predictor: self.initial_predictor as i16,
            history_sample1: 0,
            history_sample2: 0,
            loop_predictor: self.loop_predictor as i16,
            loop_history_sample1: self.loop_history_samples[0],
            loop_history_sample2: self.loop_history_samples[1],
        };
        proof {
            assert(r.adpcm_coefficients@ =~= spec_flat_coefs(self.coefs));
        }
        r
    }
}

/// Why a stream was refused before any byte was produced.
#[derive(Debug, Clone, PartialEq)]
pub enum EncodingError {
    /// No channels were given.
    EmptyChannels,
    /// The channel count is neither 1 nor even.
    UnevenChannelCount(usize),
    /// More than 16 channels were given.
    TooHighChannelCount(usize),
    /// The loop point lies past the end of the stream.
    LoopOutOfBounds { loop_point: usize, size: usize },
    /// The channels differ in length; the payload lists every length.
    MissmatchedLengths(Vec<usize>),
}

/// Whether every channel has the first channel's length.
pub open spec fn spec_lengths_match(chs: Seq<Vec<i16>>) -> bool {
    forall|j: int| 0 <= j < chs.len() ==> (#[trigger] chs[j])@.len() == chs[0]@.len()
}

/// The track list the encoder emits: one mono track for a single channel,
/// else one stereo track per channel pair.
pub open spec fn spec_encode_tracks(n: int) -> Seq<TrackDescription> {
    if n == 1 {
        seq![TrackDescription { info_v1: None, channels: Channels::Mono(0u8) }]
    } else {
        Seq::new(
            (n / 2) as nat,
            |t: int|
                TrackDescription {
                    info_v1: None,
                    channels: Channels::Stereo((2 * t) as u8, (2 * t + 1) as u8),
                },
        )
    }
}

/// The loop history pair an encoder captures for a channel: the two
/// samples right before the loop point, zero where there are none.
pub open spec fn spec_init_loop_history(samples: Seq<i16>, lp: int) -> Seq<i16> {
    seq![
        (if lp >= 2 && lp - 2 < samples.len() {
            samples[lp - 2]
        } else {
            0i16
        }),
        (if lp >= 1 && lp - 1 < samples.len() {
            samples[lp - 1]
        } else {
            0i16
        }),
    ]
}

/// The per-channel encoder facts the stream driver carries: the channel's
/// coefficient table and captured loop history.
pub open spec fn enc_props(
    e: BrstmStreamEncoder,
    chs: Seq<Vec<i16>>,
    coefs: Seq<[[i16; 2]; 8]>,
    lp: int,
    k: int,
) -> bool {
    &&& e.spec_coefs() == coefs[k]
    &&& e.spec_loop_history() == spec_init_loop_history(chs[k]@, lp)
}

/// Whether the inputs pass the encoder's validation.
pub open spec fn spec_encode_ok(chs: Seq<Vec<i16>>, loop_point: Option<u32>) -> bool {
    &&& chs.len() > 0
    &&& spec_lengths_match(chs)
    &&& (chs.len() % 2 == 0 || chs.len() == 1)
    &&& chs.len() <= 16
    &&& match loop_point {
        Some(lp) => lp <= chs[0]@.len(),
        None => true,
    }
}

/// Encode PCM channels to a container: validate the inputs, then pull one
/// block per channel in lock step until the final block, and assemble the
/// stream information, tracks and per-channel records. Each channel's
/// coefficient table is supplied by the caller.
#[verifier::rlimit(100)]
#[verifier::spinoff_prover]
pub fn encode_brstm(
    channels: &Vec<Vec<i16>>,
    channel_coefs: &Vec<[[i16; 2]; 8]>,
    sampling_rate: u16,
    loop_point: Option<u32>,
) -> (r: Result<BrstmInfoWithData, EncodingError>)
    requires
        channel_coefs@.len() == channels@.len(),
        forall|j: int| 0 <= j < channels@.len() ==> (#[trigger] channels@[j])@.len() <= 0xFFFF_FFFF,
    ensures
        r is Ok <==> spec_encode_ok(channels@, loop_point),
        channels@.len() == 0 ==> r == Err::<BrstmInfoWithData, EncodingError>(
            EncodingError::EmptyChannels,
        ),
        channels@.len() > 0 && !spec_lengths_match(channels@) ==> (r matches Err(e) && e matches
            EncodingError::MissmatchedLengths(v) && v@ == Seq::new(
            channels@.len(),
            |j: int| channels@[j]@.len() as usize,
        )),
        channels@.len() > 0 && spec_lengths_match(channels@) && channels@.len() % 2 != 0
            && channels@.len() != 1 ==> r == Err::<BrstmInfoWithData, EncodingError>(
            EncodingError::UnevenChannelCount(channels@.len() as usize),
        ),
        channels@.len() > 1 && spec_lengths_match(channels@) && channels@.len() % 2 == 0
            && channels@.len() > 16 ==> r == Err::<BrstmInfoWithData, EncodingError>(
            EncodingError::TooHighChannelCount(channels@.len() as usize),
        ),
        (channels@.len() == 1 || (channels@.len() % 2 == 0 && 0 < channels@.len() <= 16))
            && spec_lengths_match(channels@) && (loop_point matches Some(lp)
            && lp > channels@[0]@.len()) ==> r == Err::<BrstmInfoWithData, EncodingError>(
            EncodingError::LoopOutOfBounds {
                loop_point: loop_point->0 as usize,
                size: channels@[0]@.len() as usize,
            },
        ),
        r matches Ok(w) ==> ({
            let n = channels@.len() as int;
            let total = channels@[0]@.len() as int;
            let nb = spec_num_blocks(total);
            let rem = total % 14336;
            let lp0 = match loop_point {
                Some(lp) => lp as int,
                None => 0int,
            };
            &&& w.info.info == (Head1 {
                codec: 2,
                loop_flag: if loop_point is Some {
                    1u8
                } else {
                    0u8
                },
                num_channels: n as u8,
                sample_rate: sampling_rate,
                loop_start: lp0 as u32,
                total_samples: total as u32,
                audio_offset: 0,
                total_blocks: nb as u32,
                blocks_size: 8192,
                blocks_samples: 14336,
                final_block_size: spec_chunk_bytes(rem) as u32,
                final_block_samples: rem as u32,
                final_block_size_padded: spec_align32(spec_chunk_bytes(rem)) as u32,
                adpc_samples_per_entry: 14336,
                adpc_bytes_per_entry: 4,
            })
            &&& w.info.adpcm_offset == 0
            &&& w.info.adpcm_size == 0
            &&& w.info.data_offset == 0
            &&& w.info.data_size == 0
            &&& w.info.tracks@ == spec_encode_tracks(n)
            &&& w.info.channels@.len() == n
            &&& (forall|c: int|
                0 <= c < n ==> {
                    let ci = #[trigger] w.info.channels@[c];
                    &&& ci.adpcm_coefficients@ == spec_flat_coefs(channel_coefs@[c])
                    &&& ci.gain == 0
                    &&& ci.history_sample1 == 0
                    &&& ci.history_sample2 == 0
                    &&& ci.loop_history_sample1 == (if lp0 >= 2 && lp0 - 2 < total {
                        channels@[c]@[lp0 - 2]
                    } else {
                        0i16
                    })
                    &&& ci.loop_history_sample2 == (if lp0 >= 1 && lp0 - 1 < total {
                        channels@[c]@[lp0 - 1]
                    } else {
                        0i16
                    })
                })
            &&& w.adpcm_bytes@.len() == nb * n * 4
            &&& w.data_bytes@.len() == (nb - 1) * n * 8192 + n * spec_align32(
                spec_chunk_bytes(rem),
            )
            &&& (forall|c: int|
                0 <= c < n ==> (#[trigger] w.info.channels@[c]).initial_predictor
                    == w.data_bytes@[spec_block_offset(w.info.info, c, 0)])
            &&& (forall|c: int|
                0 <= c < n ==> ({
                    let q = lp0 / 14;
                    if q < spec_total_packets(nb, rem) {
                        (#[trigger] w.info.channels@[c]).loop_predictor == w.data_bytes@[
                            spec_block_offset(w.info.info, c, q / 1024) + 8 * (q % 1024)
                        ]
                    } else {
                        w.info.channels@[c].loop_predictor == 0
                    }
                }))
        }),
{
    let n = channels.len();
    if n == 0 {
        return Err(EncodingError::EmptyChannels);
    }
    let sample_count = channels[0].len();
    let mut lens: Vec<usize> = Vec::new();
    let mut lengths_ok = true;
    let mut j: usize = 0;
    while j < n
        invariant
            j <= n,
            n == channels@.len(),
            sample_count == channels@[0]@.len(),
            lens@.len() == j,
            forall|k: int| 0 <= k < j ==> lens@[k] == (#[trigger] channels@[k])@.len() as usize,
            lengths_ok == forall|k: int|
                0 <= k < j ==> (#[trigger] channels@[k])@.len() == sample_count,
        decreases n - j,
    {
        let l = channels[j].len();
        lens.push(l);
        if l != sample_count {
            lengths_ok = false;
        }
        j = j + 1;
    }
    if !lengths_ok {
        proof {
            assert(lens@ =~= Seq::new(channels@.len(), |k: int| channels@[k]@.len() as usize));
        }
        return Err(EncodingError::MissmatchedLengths(lens));
    }
    if n % 2 != 0 && n != 1 {
        return Err(EncodingError::UnevenChannelCount(n));
    }
    if n > 16 {
        return Err(EncodingError::TooHighChannelCount(n));
    }
    let lp_val: u32 = match loop_point {
        Some(lp) => {
            if lp as usize > sample_count {
                return Err(
                    EncodingError::LoopOutOfBounds { loop_point: lp as usize, size: sample_count },
                );
            }
            lp
        },
        None => 0,
    };

    let mut encoders: Vec<BrstmStreamEncoder> = Vec::new();
    let mut c: usize = 0;
    while c < n
        invariant
            c <= n,
            n == channels@.len(),
            channel_coefs@.len() == n,
            sample_count == channels@[0]@.len(),
            forall|k: int| 0 <= k < n ==> (#[trigger] channels@[k])@.len() == sample_count,
            encoders@.len() == c,
            forall|k: int|
                0 <= k < c ==> {
                    let e = #[trigger] encoders@[k];
                    &&& e.spec_samples() == channels@[k]@
                    &&& e.spec_pos() == 0
                    &&& e.spec_coefs() == channel_coefs@[k]
                    &&& e.spec_loop_state() == Some(lp_val as usize)
                    &&& e.spec_is_first()
                    &&& e.spec_initial_predictor() == 0
                    &&& e.spec_loop_predictor() == 0
                    &&& e.spec_loop_history() == seq![
                        (if lp_val >= 2 && lp_val - 2 < channels@[k]@.len() {
                            channels@[k]@[lp_val - 2]
                        } else {
                            0i16
                        }),
                        (if lp_val >= 1 && lp_val - 1 < channels@[k]@.len() {
                            channels@[k]@[lp_val - 1]
                        } else {
                            0i16
                        }),
                    ]
                },
        decreases n - c,
    {
        encoders.push(BrstmStreamEncoder::init(channels[c].as_slice(), lp_val, channel_coefs[c]));
        c = c + 1;
    }
    proof {
        assert forall|k: int| 0 <= k < n implies enc_props(
            #[trigger] encoders@[k],
            channels@,
            channel_coefs@,
            lp_val as int,
            k,
        ) by {
            assert(encoders@[k].spec_loop_history() =~= spec_init_loop_history(
                channels@[k]@,
                lp_val as int,
            ));
        }
    }

    let total_blocks = sample_count / BLOCK_SAMPLES + 1;
    let ghost total = sample_count as int;
    let ghost rem_g = total % 14336;
    proof {
        vstd::arithmetic::div_mod::lemma_fundamental_div_mod(total, 14336);
    }
    let mut adpcm_bytes: Vec<u8> = Vec::new();
    let mut data_bytes: Vec<u8> = Vec::new();
    proof {
        assert forall|k: int| 0 <= k < n implies enc_block_state(
            #[trigger] encoders@[k],
            data_bytes@,
            n as int,
            0,
            k,
            lp_val as int,
            total_blocks as int,
            rem_g,
        ) by {
            assert(lp_val as int / 14 >= 0) by {
                vstd::arithmetic::div_mod::lemma_div_pos_is_pos(lp_val as int, 14);
            }
            assert((lp_val as int - 14 * 0) as usize == lp_val as usize);
        }
    }
    let mut final_block_size: usize = 0;
    let mut final_block_samples: usize = 0;
    let mut b: usize = 0;
    while b < total_blocks
        invariant
            b <= total_blocks,
            n == channels@.len(),
            1 <= n <= 16,
            total == sample_count as int,
            total <= 0xFFFF_FFFF,
            total_blocks == total / 14336 + 1,
            rem_g == total % 14336,
            encoders@.len() == n,
            channel_coefs@.len() == n,
            forall|k: int|
                0 <= k < n ==> (#[trigger] encoders@[k]).spec_rem() >= 0,
            forall|k: int|
                0 <= k < n ==> enc_props(
                    #[trigger] encoders@[k],
                    channels@,
                    channel_coefs@,
                    lp_val as int,
                    k,
                ),
            b < total_blocks ==> forall|k: int|
                0 <= k < n ==> (#[trigger] encoders@[k]).spec_rem() == total - 14336 * b,
            b < total_blocks ==> total - 14336 * b >= 0,
            forall|k: int|
                0 <= k < n ==> enc_block_state(
                    #[trigger] encoders@[k],
                    data_bytes@,
                    n as int,
                    b as int,
                    k,
                    lp_val as int,
                    total_blocks as int,
                    rem_g,
                ),
            adpcm_bytes@.len() == (b * n) * 4,
            b < total_blocks ==> data_bytes@.len() == (b * n) * 8192,
            b == total_blocks ==> data_bytes@.len() == ((b - 1) * n) * 8192 + n * spec_align32(
                spec_chunk_bytes(rem_g),
            ),
            b == total_blocks ==> final_block_size == spec_chunk_bytes(rem_g)
                && final_block_samples == rem_g,
        decreases total_blocks - b,
    {
        let is_final = b == total_blocks - 1;
        let ghost rem_before = total - 14336 * b;
        proof {
            if is_final {
                assert(rem_before == rem_g) by {
                    assert(total - 14336 * (total / 14336) == total % 14336) by (nonlinear_arith)
                        requires
                            total >= 0,
                    ;
                }
                assert(rem_before < 14336);
            } else {
                assert(b + 1 <= total / 14336);
                assert(total - 14336 * b >= 14336) by (nonlinear_arith)
                    requires
                        b + 1 <= total / 14336,
                        total >= 0,
                        14336 * (total / 14336) <= total,
                ;
            }
        }
        let mut done: Vec<BrstmStreamEncoder> = Vec::new();
        let mut c: usize = 0;
        while c < n
            invariant
                c <= n,
                n == channels@.len(),
                1 <= n <= 16,
                encoders@.len() == n - c,
                done@.len() == c,
                b < total_blocks,
                total_blocks == total / 14336 + 1,
                rem_g == total % 14336,
                0 <= rem_g < 14336,
                0 <= total <= 0xFFFF_FFFF,
                rem_before == total - 14336 * b,
                is_final == (b == total_blocks - 1),
                rem_before >= 0,
                is_final ==> rem_before == rem_g && rem_before < 14336,
                !is_final ==> rem_before >= 14336,
                n == channels@.len(),
                channel_coefs@.len() == n,
                forall|k: int|
                    0 <= k < n - c ==> (#[trigger] encoders@[k]).spec_rem() == rem_before,
                forall|k: int|
                    0 <= k < n - c ==> enc_props(
                        #[trigger] encoders@[k],
                        channels@,
                        channel_coefs@,
                        lp_val as int,
                        k + c,
                    ),
                forall|k: int|
                    0 <= k < c ==> enc_props(
                        #[trigger] done@[k],
                        channels@,
                        channel_coefs@,
                        lp_val as int,
                        k,
                    ),
                forall|k: int| 0 <= k < c ==> (#[trigger] done@[k]).spec_rem() >= 0,
                !is_final ==> forall|k: int|
                    0 <= k < c ==> (#[trigger] done@[k]).spec_rem() == rem_before - 14336,
                lp_val <= 0xFFFF_FFFF,
                forall|k: int|
                    0 <= k < n - c ==> enc_block_state(
                        #[trigger] encoders@[k],
                        data_bytes@,
                        n as int,
                        b as int,
                        k + c,
                        lp_val as int,
                        total_blocks as int,
                        rem_g,
                    ),
                forall|k: int|
                    0 <= k < c ==> enc_block_state(
                        #[trigger] done@[k],
                        data_bytes@,
                        n as int,
                        b as int + 1,
                        k,
                        lp_val as int,
                        total_blocks as int,
                        rem_g,
                    ),
                adpcm_bytes@.len() == (b * n + c) * 4,
                !is_final ==> data_bytes@.len() == (b * n + c) * 8192,
                is_final ==> data_bytes@.len() == (b * n) * 8192 + c * spec_align32(
                    spec_chunk_bytes(rem_g),
                ),
                is_final && c > 0 ==> final_block_size == spec_chunk_bytes(rem_g)
                    && final_block_samples == rem_g,
            decreases n - c,
        {
            let mut enc = encoders.remove(0);
            let ghost pre_data = data_bytes@;
            let ghost pre_enc = enc;
            let ret = enc.pull_chunk(&mut adpcm_bytes, &mut data_bytes);
            match ret {
                Some(out) => {
                    final_block_size = out.0;
                    final_block_samples = out.1;
                },
                None => {},
            }
            done.push(enc);
            c = c + 1;
            proof {
                if is_final {
                    let al = spec_align32(spec_chunk_bytes(rem_g));
                    assert((c - 1) * al + al == c * al) by (nonlinear_arith);
                }
                assert(forall|k: int|
                    0 <= k < n - c ==> enc_props(
                        #[trigger] encoders@[k],
                        channels@,
                        channel_coefs@,
                        lp_val as int,
                        k + c,
                    ));
                // one block of state for the pulled channel
                let ni = n as int;
                let bi = b as int;
                let nbi = total_blocks as int;
                let lpg = lp_val as int;
                let ci = c as int - 1;
                assert(rem_before == 14336 * (nbi - 1 - bi) + rem_g) by (nonlinear_arith)
                    requires
                        rem_before == total - 14336 * bi,
                        total == 14336 * (nbi - 1) + rem_g,
                ;
                assert(pre_data.len() == spec_chunk_start(ni, bi, ci, nbi, rem_g)) by {
                    if is_final {
                        assert(bi == nbi - 1);
                    } else {
                        assert((bi * ni + ci) * 8192 == bi * ni * 8192 + ci * 8192)
                            by (nonlinear_arith);
                    }
                }
                lemma_state_step(
                    pre_enc,
                    enc,
                    pre_data,
                    data_bytes@,
                    ni,
                    bi,
                    ci,
                    lpg,
                    nbi,
                    rem_g,
                    rem_before,
                );
                assert forall|k: int| 0 <= k < c implies enc_block_state(
                    #[trigger] done@[k],
                    data_bytes@,
                    ni,
                    bi + 1,
                    k,
                    lpg,
                    nbi,
                    rem_g,
                ) by {
                    if k < ci {
                        lemma_state_grow(done@[k], pre_data, data_bytes@, ni, bi + 1, k, lpg, nbi, rem_g);
                    }
                }
                assert forall|k: int| 0 <= k < n - c implies enc_block_state(
                    #[trigger] encoders@[k],
                    data_bytes@,
                    ni,
                    bi,
                    k + c,
                    lpg,
                    nbi,
                    rem_g,
                ) by {
                    lemma_state_grow(
                        encoders@[k],
                        pre_data,
                        data_bytes@,
                        ni,
                        bi,
                        k + c,
                        lpg,
                        nbi,
                        rem_g,
                    );
                }
            }
        }
        encoders = done;
        b = b + 1;
        proof {
            assert((b - 1) * n + n == b * n) by (nonlinear_arith);
            assert(14336 * (b - 1) + 14336 == 14336 * b);
        }
    }

    let mut channel_infos: Vec<AdpcmChannelInformation> = Vec::new();
    let mut c: usize = 0;
    while c < n
        invariant
            c <= n,
            n == channels@.len(),
            encoders@.len() == n,
            channel_coefs@.len() == n,
            lp_val as int == (match loop_point {
                Some(lp) => lp as int,
                None => 0int,
            }),
            forall|k: int| 0 <= k < n ==> (#[trigger] channels@[k])@.len() == sample_count,
            forall|k: int|
                0 <= k < n ==> enc_props(
                    #[trigger] encoders@[k],
                    channels@,
                    channel_coefs@,
                    lp_val as int,
                    k,
                ),
            total_blocks == total / 14336 + 1,
            rem_g == total % 14336,
            0 <= rem_g < 14336,
            0 <= total,
            forall|k: int|
                0 <= k < n ==> enc_block_state(
                    #[trigger] encoders@[k],
                    data_bytes@,
                    n as int,
                    total_blocks as int,
                    k,
                    lp_val as int,
                    total_blocks as int,
                    rem_g,
                ),
            forall|k: int|
                0 <= k < c ==> (#[trigger] channel_infos@[k]).initial_predictor == encoders@[
                    k
                ].spec_initial_predictor() && channel_infos@[k].loop_predictor == encoders@[
                    k
                ].spec_loop_predictor(),
            channel_infos@.len() == c,
            forall|k: int|
                0 <= k < c ==> {
                    let ci = #[trigger] channel_infos@[k];
                    &&& ci.adpcm_coefficients@ == spec_flat_coefs(channel_coefs@[k])
                    &&& ci.gain == 0
                    &&& ci.history_sample1 == 0
                    &&& ci.history_sample2 == 0
                    &&& ci.loop_history_sample1 == spec_init_loop_history(
                        channels@[k]@,
                        lp_val as int,
                    )[0]
                    &&& ci.loop_history_sample2 == spec_init_loop_history(
                        channels@[k]@,
                        lp_val as int,
                    )[1]
                },
        decreases n - c,
    {
        channel_infos.push(encoders[c].get_adpcm_channel_info());
        c = c + 1;
    }

    let mut tracks: Vec<TrackDescription> = Vec::new();
    if n == 1 {
        tracks.push(TrackDescription { info_v1: None, channels: Channels::Mono(0) });
        proof {
            assert(tracks@ =~= spec_encode_tracks(1));
        }
    } else {
        let half = n / 2;
        let mut t: usize = 0;
        while t < half
            invariant
                t <= half,
                half == n / 2,
                n <= 16,
                tracks@.len() == t,
                forall|k: int|
                    0 <= k < t ==> tracks@[k] == (TrackDescription {
                        info_v1: None,
                        channels: Channels::Stereo((2 * k) as u8, (2 * k + 1) as u8),
                    }),
            decreases half - t,
        {
            tracks.push(
                TrackDescription {
                    info_v1: None,
                    channels: Channels::Stereo((t * 2) as u8, (t * 2 + 1) as u8),
                },
            );
            t = t + 1;
        }
        proof {
            assert(tracks@ =~= spec_encode_tracks(n as int));
        }
    }

    proof {
        assert(spec_last_packet(rem_g) <= 1023) by {
            if rem_g > 14 {
                vstd::arithmetic::div_mod::lemma_div_is_ordered(rem_g - 1, 14334, 14);
            }
        }
    }
    let final_block_size_padded = crate::bytes::align_next_32(final_block_size as u32);
    let out_info = BrstmInformation {
        info: Head1 {
            codec: 2,
            loop_flag: if matches!(loop_point, Some(..)) {
                1
            } else {
                0
            },
            num_channels: n as u8,
            sample_rate: sampling_rate,
            loop_start: lp_val,
            total_samples: sample_count as u32,
            audio_offset: 0,
            total_blocks: total_blocks as u32,
            blocks_size: 8192,
            blocks_samples: 14336,
            final_block_size: final_block_size as u32,
            final_block_samples: final_block_samples as u32,
            final_block_size_padded,
            adpc_samples_per_entry: 14336,
            adpc_bytes_per_entry: 4,
        },
        tracks,
        channels: channel_infos,
        adpcm_offset: 0,
        adpcm_size: 0,
        data_offset: 0,
        data_size: 0,
    };
    proof {
        let ni = n as int;
        let nbi = total_blocks as int;
        let lpg = lp_val as int;
        let q = lpg / 14;
        let hh = out_info.info;
        assert(spec_last_packet(rem_g) >= 0) by {
            if rem_g > 14 {
                vstd::arithmetic::div_mod::lemma_div_pos_is_pos(rem_g - 1, 14);
            }
        }
        assert(spec_last_packet(rem_g) <= 1023) by {
            if rem_g > 14 {
                vstd::arithmetic::div_mod::lemma_div_is_ordered(rem_g - 1, 14334, 14);
            }
        }
        crate::bytes::lemma_align32(spec_chunk_bytes(rem_g));
        assert(q >= 0) by {
            vstd::arithmetic::div_mod::lemma_div_pos_is_pos(lpg, 14);
        }
        assert(hh.final_block_size_padded as int == spec_align32(spec_chunk_bytes(rem_g)));
        assert forall|cx: int| 0 <= cx < ni implies spec_block_offset(hh, cx, 0)
            == spec_chunk_start(ni, 0, cx, nbi, rem_g) by {
            if nbi != 1 {
                assert((0 * ni + cx) * 8192 == cx * 8192) by (nonlinear_arith);
            }
        }
        if q < spec_total_packets(nbi, rem_g) {
            let bl = q / 1024;
            assert(bl >= 0) by {
                vstd::arithmetic::div_mod::lemma_div_pos_is_pos(q, 1024);
            }
            assert(q <= 1024 * (nbi - 1) + 1023);
            assert(bl <= nbi - 1) by {
                vstd::arithmetic::div_mod::lemma_div_is_ordered(q, 1024 * (nbi - 1) + 1023, 1024);
                vstd::arithmetic::div_mod::lemma_fundamental_div_mod_converse(
                    1024 * (nbi - 1) + 1023,
                    1024,
                    nbi - 1,
                    1023,
                );
            }
            assert forall|cx: int| 0 <= cx < ni implies spec_block_offset(hh, cx, bl)
                == spec_chunk_start(ni, bl, cx, nbi, rem_g) by {
                if bl != nbi - 1 {
                    assert((bl * ni + cx) * 8192 == bl * ni * 8192 + cx * 8192)
                        by (nonlinear_arith);
                }
            }
        }
    }
    Ok(BrstmInfoWithData { info: out_info, adpcm_bytes, data_bytes })
}

/// The big-endian bytes of one seek-table sample.
fn i16_be_pair(x: i16) -> (r: [u8; 2])
    ensures
        r@ == spec_i16_be(x),
{
    let u = #[verifier::truncate] (x as u16);
    let r = [(u / 0x100) as u8, (u % 0x100) as u8];
    proof {
        assert(r@ =~= spec_i16_be(x));
    }
    r
}

} // verus!
