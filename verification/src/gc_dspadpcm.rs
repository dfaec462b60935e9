//! GC-DSP ADPCM packets: 8 bytes encode 14 samples as one header byte
//! (predictor index in the high nibble, scale exponent in the low nibble)
//! followed by 14 signed 4-bit residuals. This module states the decoding of
//! a packet stream as a specification and implements the per-packet encoder
//! against it: the encoder's reconstructed history provably matches what a
//! decoder computes from the emitted bytes.

use vstd::arithmetic::div_mod::{
    lemma_fundamental_div_mod, lemma_fundamental_div_mod_converse,
};
use vstd::arithmetic::power2::{lemma2_to64, pow2};
use vstd::bits::lemma_u32_shl_is_mul;
use vstd::prelude::*;

verus! {

/// Samples per packet.
pub const PACKET_SAMPLES: usize = 14;

/// Bytes per packet.
pub const PACKET_BYTES: usize = 8;

/// The predictor/scale byte governing sample `idx` of a packet stream: the
/// first byte of the packet the sample belongs to.
pub open spec fn spec_ps_byte(data: Seq<u8>, idx: int) -> u8 {
    data[(idx / 14) * 8]
}

/// The byte holding the 4-bit residual of sample `idx`.
pub open spec fn spec_nibble_byte(data: Seq<u8>, idx: int) -> u8 {
    data[(idx / 14) * 8 + 1 + (idx % 14) / 2]
}

/// The signed residual of sample `idx`: the high nibble for even sample
/// positions, the low one for odd positions, sign-extended to `[-8, 7]`.
pub open spec fn spec_nibble(data: Seq<u8>, idx: int) -> int {
    let b = spec_nibble_byte(data, idx);
    let v = if idx % 2 == 0 {
        b as int / 16
    } else {
        b as int % 16
    };
    if v >= 8 {
        v - 16
    } else {
        v
    }
}

/// Clamp an unbounded integer into the `i16` range.
pub open spec fn spec_clamp_i16(x: int) -> i16 {
    if x < -32768 {
        -32768i16
    } else if x > 32767 {
        32767i16
    } else {
        x as i16
    }
}

/// The residual gain selected by a predictor/scale byte: two to the power of
/// its low nibble.
pub open spec fn spec_scale(cps: u8) -> int {
    pow2((cps % 16) as nat) as int
}

/// The index of the first coefficient of the pair selected by a
/// predictor/scale byte.
pub open spec fn spec_coef_index(cps: u8) -> int {
    2 * (cps as int / 16)
}

/// One decoded sample: predict from the two history samples with the
/// selected coefficient pair (indices clamped to the table), add the scaled
/// residual, round, and clamp. `yn1` is the newer history sample.
pub open spec fn spec_decode_sample(cps: u8, nib: int, coefs: Seq<i16>, yn1: i16, yn2: i16) -> i16 {
    let ci = spec_coef_index(cps);
    let c1 = coefs[if ci < 15 { ci } else { 15 }];
    let c2 = coefs[if ci + 1 < 15 { ci + 1 } else { 15 }];
    spec_clamp_i16((0x400 + spec_scale(cps) * nib * 0x800 + c1 * yn1 + c2 * yn2) / 0x800)
}

/// The first `count` samples decoded from a packet stream, seeded with the
/// history pair `(yn1, yn2)`; `yn1` is the newer sample.
pub open spec fn spec_decode(
    data: Seq<u8>,
    count: nat,
    yn1: i16,
    yn2: i16,
    coefs: Seq<i16>,
) -> Seq<i16>
    decreases count,
{
    if count == 0 {
        Seq::empty()
    } else {
        let prev = spec_decode(data, (count - 1) as nat, yn1, yn2, coefs);
        let h1 = if count >= 2 {
            prev[count - 2]
        } else {
            yn1
        };
        let h2 = if count >= 3 {
            prev[count - 3]
        } else if count == 2 {
            yn1
        } else {
            yn2
        };
        prev.push(
            spec_decode_sample(
                spec_ps_byte(data, count - 1),
                spec_nibble(data, count - 1),
                coefs,
                h1,
                h2,
            ),
        )
    }
}

pub proof fn lemma_decode_len(data: Seq<u8>, count: nat, yn1: i16, yn2: i16, coefs: Seq<i16>)
    ensures
        spec_decode(data, count, yn1, yn2, coefs).len() == count,
    decreases count,
{
    if count > 0 {
        lemma_decode_len(data, (count - 1) as nat, yn1, yn2, coefs);
    }
}

/// The gain selected by a predictor/scale byte, as a machine integer.
pub(crate) fn scale_of(cps: u8) -> (r: u32)
    ensures
        r == spec_scale(cps),
{
    let k = (cps % 16) as u32;
    proof {
        lemma2_to64();
        lemma_u32_shl_is_mul(1u32, k);
    }
    1u32 << k
}

/// Floor division by 2048 over machine integers; `/ 0x800` of the
/// specifications is Euclidean and thus floor division for this positive
/// divisor.
pub(crate) fn floor_div_2048(v: i64) -> (r: i64)
    requires
        -0x4000_0000_0000i64 <= v <= 0x4000_0000_0000i64,
    ensures
        r == v as int / 0x800,
{
    if v >= 0 {
        ((v as u64) / 2048) as i64
    } else {
        let a = (-v) as u64;
        let q = (a + 2047) / 2048;
        proof {
            let qi = (a + 2047) as int / 2048;
            let ri = (a + 2047) as int % 2048;
            lemma_fundamental_div_mod((a + 2047) as int, 2048);
            assert(v as int == 2048 * (-qi) + (2047 - ri)) by {
                assert(a + 2047 == 2048 * qi + ri);
            }
            lemma_fundamental_div_mod_converse(v as int, 2048, -qi, 2047 - ri);
        }
        -(q as i64)
    }
}

/// Truncating division by a positive power of two, as the `/` operator of
/// the executable language computes it.
pub open spec fn spec_tdiv(v: int, d: int) -> int {
    if v >= 0 {
        v / d
    } else {
        -((-v) / d)
    }
}

/// Truncating division by 2048 over machine integers.
pub(crate) fn trunc_div_2048(v: i64) -> (r: i64)
    requires
        -0x4000_0000_0000i64 <= v <= 0x4000_0000_0000i64,
    ensures
        r == spec_tdiv(v as int, 0x800),
{
    if v >= 0 {
        ((v as u64) / 2048) as i64
    } else {
        -((((-v) as u64) / 2048) as i64)
    }
}

/// Truncating halving over machine integers.
pub(crate) fn trunc_div_2(v: i64) -> (r: i64)
    requires
        -0x4000_0000_0000i64 <= v <= 0x4000_0000_0000i64,
    ensures
        r == spec_tdiv(v as int, 2),
{
    if v >= 0 {
        ((v as u64) / 2) as i64
    } else {
        -((((-v) as u64) / 2) as i64)
    }
}

/// Clamp a machine integer into the `i16` range.
pub(crate) fn clamp_to_i16(x: i64) -> (r: i16)
    ensures
        r == spec_clamp_i16(x as int),
{
    if x < -32768 {
        -32768
    } else if x > 32767 {
        32767
    } else {
        x as i16
    }
}

/// The eight coefficient pairs flattened into the order they are stored in a
/// channel's information block.
pub open spec fn spec_flat_coefs(c: [[i16; 2]; 8]) -> Seq<i16> {
    Seq::new(16, |k: int| c@[k / 2]@[k % 2])
}

/// The relation the per-packet encoder maintains: the first `n` residuals
/// are valid nibbles and each reconstructed sample in the window equals the
/// decode of its residual from the two preceding window samples.
pub open spec fn frame_consistent(
    window: Seq<i16>,
    outs: Seq<i64>,
    n: int,
    ps: u8,
    coefs: Seq<i16>,
) -> bool {
    forall|t: int|
        0 <= t < n ==> (-8 <= #[trigger] outs[t] <= 7 && window[t + 2] == spec_decode_sample(
            ps,
            outs[t] as int,
            coefs,
            window[t + 1],
            window[t],
        ))
}

/// A packet whose residuals are taken from `outs` and whose samples satisfy
/// `frame_consistent` decodes exactly to the reconstructed window.
proof fn lemma_decode_matches(
    data: Seq<u8>,
    n: int,
    coefs: Seq<i16>,
    window: Seq<i16>,
    outs: Seq<i64>,
)
    requires
        0 <= n <= 14,
        window.len() == 16,
        outs.len() == 14,
        data.len() >= 8,
        forall|t: int| 0 <= t < n ==> spec_nibble(data, t) == outs[t],
        forall|t: int| 0 <= t < n ==> #[trigger] spec_ps_byte(data, t) == data[0],
        frame_consistent(window, outs, n, data[0], coefs),
    ensures
        spec_decode(data, n as nat, window[1], window[0], coefs) == window.subrange(2, 2 + n),
    decreases n,
{
    if n == 0 {
        assert(spec_decode(data, 0, window[1], window[0], coefs) =~= window.subrange(2, 2));
    } else {
        lemma_decode_matches(data, n - 1, coefs, window, outs);
        let prev = spec_decode(data, (n - 1) as nat, window[1], window[0], coefs);
        assert(prev == window.subrange(2, 2 + (n - 1)));
        assert(prev.len() == n - 1);
        let h1 = if n >= 2 {
            prev[n - 2]
        } else {
            window[1]
        };
        let h2 = if n >= 3 {
            prev[n - 3]
        } else if n == 2 {
            window[1]
        } else {
            window[0]
        };
        assert(h1 == window[n]);
        assert(h2 == window[n - 1]);
        assert(spec_decode(data, n as nat, window[1], window[0], coefs) =~= window.subrange(
            2,
            2 + n,
        ));
    }
}

/// One reconstruction pass of the scale search, after `t` samples: the
/// window with reconstructions behind the two history samples, the
/// accumulated squared error against the input, and how far the residuals
/// overflowed four bits. `g` is the scale gain under trial.
pub open spec fn spec_round_state(
    orig: Seq<i16>,
    c1: i16,
    c2: i16,
    g: int,
    t: int,
) -> (Seq<i16>, int, int)
    decreases t,
{
    if t <= 0 {
        (seq![orig[0], orig[1]] + Seq::new(14, |i: int| 0i16), 0, 0)
    } else {
        let prev = spec_round_state(orig, c1, c2, g, t - 1);
        let v1 = prev.0[t - 1] * c2 + prev.0[t] * c1;
        let v2 = spec_tdiv(orig[t + 1] * 2048 - v1, 0x800);
        let raw = spec_round_nibble(v2, g);
        let v3 = if raw < -8 {
            -8int
        } else if raw > 7 {
            7int
        } else {
            raw
        };
        let index2 = if raw < -8 && -8 - raw > prev.2 {
            -8 - raw
        } else if raw > 7 && raw - 7 > prev.2 {
            raw - 7
        } else {
            prev.2
        };
        let recon = spec_clamp_i16((v1 + v3 * g * 2048 + 1024) / 0x800);
        (
            prev.0.update(t + 1, recon),
            prev.1 + (orig[t + 1] - recon) * (orig[t + 1] - recon),
            index2,
        )
    }
}

/// The reconstruction window of a search round always holds 16 samples.
pub proof fn lemma_round_state_len(orig: Seq<i16>, c1: i16, c2: i16, g: int, t: int)
    requires
        t <= 14,
    ensures
        spec_round_state(orig, c1, c2, g, t).0.len() == 16,
    decreases t,
{
    if t > 0 {
        lemma_round_state_len(orig, c1, c2, g, t - 1);
        assert(spec_round_state(orig, c1, c2, g, t).0.len() == spec_round_state(
            orig,
            c1,
            c2,
            g,
            t - 1,
        ).0.len()) by {
            reveal_with_fuel(spec_round_state, 2);
        }
    } else {
        assert(spec_round_state(orig, c1, c2, g, t).0 == seq![orig[0], orig[1]] + Seq::new(
            14,
            |i: int| 0i16,
        ));
        assert((seq![orig[0], orig[1]] + Seq::new(14, |i: int| 0i16)).len() == 16);
    }
}

/// A scaled residual rounded to the nearest integer, halves toward zero.
pub open spec fn spec_round_nibble(v2: int, g: int) -> int {
    let m = if v2 >= 0 {
        v2
    } else {
        -v2
    };
    let mag = m / g + (if 2 * (m % g) > g {
        1int
    } else {
        0int
    });
    if v2 >= 0 {
        mag
    } else {
        -mag
    }
}

/// The worst clamped residual of a pair against the raw input, after `t`
/// samples: the quantity the initial scale is estimated from.
pub open spec fn spec_init_dist(orig: Seq<i16>, c1: i16, c2: i16, t: int) -> int
    decreases t,
{
    if t <= 0 {
        0
    } else {
        let d = spec_init_dist(orig, c1, c2, t - 1);
        let v1 = spec_tdiv(orig[t - 1] * c2 + orig[t] * c1, 0x800);
        let v2 = orig[t + 1] - v1;
        let v3 = if v2 < -32768 {
            -32768int
        } else if v2 > 32767 {
            32767int
        } else {
            v2
        };
        if (if v3 >= 0 {
            v3
        } else {
            -v3
        }) > (if d >= 0 {
            d
        } else {
            -d
        }) {
            v3
        } else {
            d
        }
    }
}

/// The initial scale estimate: halve the worst residual until it fits four
/// bits, capped at 13 steps.
pub open spec fn spec_init_scale(d: int, scale: int) -> int
    decreases 13 - scale,
{
    if scale <= 12 && (d < -8 || d > 7) {
        spec_init_scale(spec_tdiv(d, 2), scale + 1)
    } else {
        scale
    }
}

/// Raising the scale while the residual overflow halves away, capping one
/// past the top.
pub open spec fn spec_xloop(scale: int, x: int) -> int
    decreases x,
{
    if x > 256 {
        let s2 = if scale + 1 >= 12 {
            11int
        } else {
            scale + 1
        };
        spec_xloop(s2, spec_tdiv(x, 2))
    } else {
        scale
    }
}

/// The scale search of one coefficient pair from a given scale: raise the
/// scale round by round while residuals overflow, and return the settled
/// scale and its accumulated squared reconstruction error. The round count
/// guards termination; real searches settle far earlier.
pub open spec fn spec_search(
    orig: Seq<i16>,
    count: int,
    c1: i16,
    c2: i16,
    scale: int,
    rounds: int,
) -> (int, int)
    decreases 32 - rounds,
{
    let sc = scale + 1;
    let g = pow2((if 0 <= sc <= 12 {
        sc
    } else {
        0
    }) as nat) as int;
    let (ins, dist, index) = spec_round_state(orig, c1, c2, g, count);
    if rounds + 1 >= 32 {
        (sc, dist)
    } else if index + 8 > 256 {
        spec_search(orig, count, c1, c2, spec_xloop(sc, index + 8), rounds + 1)
    } else if sc < 12 && index > 1 {
        spec_search(orig, count, c1, c2, sc, rounds + 1)
    } else {
        (sc, dist)
    }
}

/// The accumulated squared reconstruction error a coefficient pair reaches
/// at the end of its scale search.
pub open spec fn spec_pair_dist(orig: Seq<i16>, count: int, c1: i16, c2: i16) -> int {
    let d0 = spec_init_dist(orig, c1, c2, count);
    let s0 = spec_init_scale(d0, 0);
    let adj = if s0 <= 1 {
        -1int
    } else {
        s0 - 2
    };
    spec_search(orig, count, c1, c2, adj, 0).1
}

/// The product of two 16-bit samples, widened so it cannot overflow.
pub(crate) fn mul16(a: i16, b: i16) -> (r: i64)
    ensures
        r as int == a as int * b as int,
        -0x4000_0000 <= r <= 0x4000_0000,
{
    proof {
        assert(-0x4000_0000 <= a as int * b as int <= 0x4000_0000) by (nonlinear_arith)
            requires
                -0x8000 <= a as int <= 0x7FFF,
                -0x8000 <= b as int <= 0x7FFF,
        ;
    }
    a as i64 * b as i64
}

/// The low four bits of a residual in `[-8, 7]`: its value modulo 16.
fn nib_bits(v: i64) -> (r: u8)
    requires
        -8 <= v <= 7,
    ensures
        r as int == (v as int) % 16,
        r <= 15,
{
    if v < 0 {
        (v + 16) as u8
    } else {
        v as u8
    }
}

/// Encode one packet: try all eight coefficient pairs, searching a scale for
/// each that keeps the residuals in four bits, and keep the pair with the
/// least squared reconstruction error. The window's two leading samples are
/// the history; on return the fourteen samples behind them are replaced by
/// the reconstruction a decoder of the returned packet computes, so that
/// encoder and decoder history never drift apart.
pub fn dsp_encode_frame(
    pcm_in_out: &mut [i16; 16],
    sample_count: usize,
    coefs_in: &[[i16; 2]; 8],
) -> (r: [u8; 8])
    requires
        sample_count <= 14,
    ensures
        final(pcm_in_out)@.len() == 16,
        final(pcm_in_out)@[0] == old(pcm_in_out)@[0],
        final(pcm_in_out)@[1] == old(pcm_in_out)@[1],
        forall|j: int|
            2 + sample_count <= j < 16 ==> final(pcm_in_out)@[j] == old(pcm_in_out)@[j],
        (r@[0] as int) / 16 < 8,
        (r@[0] as int) % 16 <= 12,
        forall|t: int| sample_count <= t < 14 ==> #[trigger] spec_nibble(r@, t) == 0,
        forall|j: int|
            0 <= j < 8 ==> #[trigger] spec_pair_dist(
                old(pcm_in_out)@,
                sample_count as int,
                coefs_in@[j]@[0],
                coefs_in@[j]@[1],
            ) >= spec_pair_dist(
                old(pcm_in_out)@,
                sample_count as int,
                coefs_in@[r@[0] as int / 16]@[0],
                coefs_in@[r@[0] as int / 16]@[1],
            ),
        forall|j: int|
            0 <= j < r@[0] as int / 16 ==> #[trigger] spec_pair_dist(
                old(pcm_in_out)@,
                sample_count as int,
                coefs_in@[j]@[0],
                coefs_in@[j]@[1],
            ) > spec_pair_dist(
                old(pcm_in_out)@,
                sample_count as int,
                coefs_in@[r@[0] as int / 16]@[0],
                coefs_in@[r@[0] as int / 16]@[1],
            ),
        spec_decode(
            r@,
            sample_count as nat,
            old(pcm_in_out)@[1],
            old(pcm_in_out)@[0],
            spec_flat_coefs(*coefs_in),
        ) == final(pcm_in_out)@.subrange(2, 2 + sample_count),
{
    let ghost flat = spec_flat_coefs(*coefs_in);
    let p0 = pcm_in_out[0];
    let p1 = pcm_in_out[1];

    let mut best_dist: u64 = u64::MAX;
    let mut best_index: usize = 0;
    let mut best_scale: i64 = 0;
    let mut best_ins: [i16; 16] = [0; 16];
    let mut best_outs: [i64; 14] = [0; 14];

    let mut i: usize = 0;
    while i < 8
        invariant
            i <= 8,
            sample_count <= 14,
            p0 == old(pcm_in_out)@[0],
            p1 == old(pcm_in_out)@[1],
            pcm_in_out@ == old(pcm_in_out)@,
            flat == spec_flat_coefs(*coefs_in),
            i > 0 ==> best_dist < u64::MAX,
            i == 0 ==> best_dist == u64::MAX,
            i > 0 ==> best_index < i && best_dist as int == spec_pair_dist(
                old(pcm_in_out)@,
                sample_count as int,
                coefs_in@[best_index as int]@[0],
                coefs_in@[best_index as int]@[1],
            ),
            forall|j: int|
                0 <= j < i ==> #[trigger] spec_pair_dist(
                    old(pcm_in_out)@,
                    sample_count as int,
                    coefs_in@[j]@[0],
                    coefs_in@[j]@[1],
                ) >= best_dist as int,
            forall|j: int|
                0 <= j < best_index ==> #[trigger] spec_pair_dist(
                    old(pcm_in_out)@,
                    sample_count as int,
                    coefs_in@[j]@[0],
                    coefs_in@[j]@[1],
                ) > best_dist as int,
            best_dist < u64::MAX ==> {
                &&& best_index < 8
                &&& 0 <= best_scale <= 12
                &&& best_ins@[0] == p0
                &&& best_ins@[1] == p1
                &&& frame_consistent(
                    best_ins@,
                    best_outs@,
                    sample_count as int,
                    (best_index * 16 + best_scale) as u8,
                    flat,
                )
                &&& forall|k: int| sample_count <= k < 14 ==> best_outs@[k] == 0
            },
        decreases 8 - i,
    {
        let c1 = coefs_in[i][0];
        let c2 = coefs_in[i][1];

        // Estimate an initial scale from the worst-case residual against the
        // raw input samples.
        let mut distance: i64 = 0;
        let mut s: usize = 0;
        while s < sample_count
            invariant
                s <= sample_count,
                sample_count <= 14,
                -32768 <= distance <= 32767,
                pcm_in_out@ == old(pcm_in_out)@,
                distance as int == spec_init_dist(old(pcm_in_out)@, c1, c2, s as int),
            decreases sample_count - s,
        {
            let v1 = trunc_div_2048(mul16(pcm_in_out[s], c2) + mul16(pcm_in_out[s + 1], c1));
            let v2 = pcm_in_out[s + 2] as i64 - v1;
            let v3: i64 = if v2 < -32768 {
                -32768
            } else if v2 > 32767 {
                32767
            } else {
                v2
            };
            let av3: i64 = if v3 < 0 {
                -v3
            } else {
                v3
            };
            let ad: i64 = if distance < 0 {
                -distance
            } else {
                distance
            };
            if av3 > ad {
                distance = v3;
            }
            s = s + 1;
            proof {
                assert(distance as int == spec_init_dist(old(pcm_in_out)@, c1, c2, s as int));
            }
        }
        let ghost d0 = spec_init_dist(old(pcm_in_out)@, c1, c2, sample_count as int);
        let mut scale: i64 = 0;
        while scale <= 12 && (distance < -8 || distance > 7)
            invariant
                0 <= scale <= 13,
                -32768 <= distance <= 32767,
                spec_init_scale(distance as int, scale as int) == spec_init_scale(d0, 0),
            decreases 13 - scale,
        {
            scale = scale + 1;
            distance = trunc_div_2(distance);
        }
        proof {
            assert(scale as int == spec_init_scale(d0, 0));
        }
        scale = if scale <= 1 {
            -1
        } else {
            scale - 2
        };
        let ghost adj_g = scale as int;
        proof {
            assert(spec_search(
                old(pcm_in_out)@,
                sample_count as int,
                c1,
                c2,
                adj_g,
                0,
            ).1 == spec_pair_dist(old(pcm_in_out)@, sample_count as int, c1, c2));
        }

        // Search upward from the estimate, reconstructing as a decoder would
        // and tracking how far the residuals overflow four bits.
        let mut ins: [i16; 16] = [0; 16];
        ins[0] = p0;
        ins[1] = p1;
        let mut outs: [i64; 14] = [0; 14];
        let mut dist_accum: u64 = 0;
        let mut index: i64 = 0;
        let mut again = true;
        let mut rounds: u64 = 0;
        while again
            invariant
                sample_count <= 14,
                rounds <= 32,
                again ==> rounds < 32,
                again ==> -1 <= scale <= 11,
                !again ==> 0 <= scale <= 12,
                spec_search(old(pcm_in_out)@, sample_count as int, c1, c2, adj_g, 0).1
                    == spec_pair_dist(old(pcm_in_out)@, sample_count as int, c1, c2),
                again ==> spec_search(
                    old(pcm_in_out)@,
                    sample_count as int,
                    c1,
                    c2,
                    scale as int,
                    rounds as int,
                ) == spec_search(old(pcm_in_out)@, sample_count as int, c1, c2, adj_g, 0),
                !again ==> (scale as int, dist_accum as int) == spec_search(
                    old(pcm_in_out)@,
                    sample_count as int,
                    c1,
                    c2,
                    adj_g,
                    0,
                ),
                i < 8,
                ins@.len() == 16,
                outs@.len() == 14,
                ins@[0] == p0,
                ins@[1] == p1,
                p0 == old(pcm_in_out)@[0],
                p1 == old(pcm_in_out)@[1],
                c1 == coefs_in@[i as int]@[0],
                c2 == coefs_in@[i as int]@[1],
                flat == spec_flat_coefs(*coefs_in),
                pcm_in_out@ == old(pcm_in_out)@,
                0 <= index,
                dist_accum <= 14 * 0xFFFE0001,
                forall|k: int| sample_count <= k < 14 ==> outs@[k] == 0,
                !again ==> frame_consistent(
                    ins@,
                    outs@,
                    sample_count as int,
                    (i * 16 + scale) as u8,
                    flat,
                ),
            decreases 32 - rounds,
        {
            let ghost scale_pre = scale as int;
            let ghost rounds_pre = rounds as int;
            rounds = rounds + 1;
            scale = scale + 1;
            dist_accum = 0;
            index = 0;
            let g: u32 = scale_of(scale as u8);
            proof {
                lemma2_to64();
                assert(g == spec_scale((i * 16 + scale) as u8)) by {
                    assert((i * 16 + scale) as u8 % 16 == scale);
                };
                assert(g as int == pow2(scale as nat)) by {
                    assert((i * 16 + scale) as u8 % 16 == scale);
                };
            }
            let ghost ps: u8 = (i * 16 + scale) as u8;
            proof {
                let base = spec_round_state(old(pcm_in_out)@, c1, c2, g as int, 0);
                assert(base.0[0] == old(pcm_in_out)@[0]);
                assert(base.0[1] == old(pcm_in_out)@[1]);
            }
            let mut s: usize = 0;
            while s < sample_count
                invariant
                    s <= sample_count,
                    sample_count <= 14,
                    0 <= scale <= 12,
                    i < 8,
                    g == spec_scale(ps),
                    1 <= g <= 4096,
                    ps == (i * 16 + scale) as u8,
                    spec_coef_index(ps) == 2 * i,
                    ins@.len() == 16,
                    outs@.len() == 14,
                    ins@[0] == p0,
                    ins@[1] == p1,
                    p0 == old(pcm_in_out)@[0],
                    p1 == old(pcm_in_out)@[1],
                    c1 == coefs_in@[i as int]@[0],
                    c2 == coefs_in@[i as int]@[1],
                    flat == spec_flat_coefs(*coefs_in),
                    pcm_in_out@ == old(pcm_in_out)@,
                    0 <= index <= 0x20_0000,
                    dist_accum <= s * 0xFFFE0001,
                    forall|k: int| sample_count <= k < 14 ==> outs@[k] == 0,
                    frame_consistent(ins@, outs@, s as int, ps, flat),
                    forall|j: int|
                        0 <= j < s + 2 ==> #[trigger] ins@[j] == spec_round_state(
                            old(pcm_in_out)@,
                            c1,
                            c2,
                            g as int,
                            s as int,
                        ).0[j],
                    dist_accum as int == spec_round_state(
                        old(pcm_in_out)@,
                        c1,
                        c2,
                        g as int,
                        s as int,
                    ).1,
                    index as int == spec_round_state(
                        old(pcm_in_out)@,
                        c1,
                        c2,
                        g as int,
                        s as int,
                    ).2,
                decreases sample_count - s,
            {
                let v1: i64 = mul16(ins[s], c2) + mul16(ins[s + 1], c1);
                proof {
                    assert(v1 as int == ins@[s as int] as int * c2 as int + ins@[s + 1] as int
                        * c1 as int);
                }
                let v2 = trunc_div_2048((pcm_in_out[s + 2] as i64) * 2048 - v1);
                // Round the scaled residual to the nearest integer, halves
                // toward zero.
                let neg = v2 < 0;
                let m: u64 = if neg {
                    (-v2) as u64
                } else {
                    v2 as u64
                };
                let g64 = g as u64;
                let q = m / g64;
                let rr = m % g64;
                let mag = q + (if 2 * rr > g64 {
                    1
                } else {
                    0
                });
                let mut v3: i64 = if neg {
                    -(mag as i64)
                } else {
                    mag as i64
                };
                let ghost raw_g = v3 as int;
                if v3 < -8 {
                    let excess = -8 - v3;
                    if index < excess {
                        index = excess;
                    }
                    v3 = -8;
                } else if v3 > 7 {
                    let excess = v3 - 7;
                    if index < excess {
                        index = excess;
                    }
                    v3 = 7;
                }
                outs[s] = v3;
                proof {
                    assert(-0x8000 <= v3 as int * (g as int) <= 0x8000) by (nonlinear_arith)
                        requires
                            -8 <= v3 as int <= 7,
                            1 <= g as int <= 4096,
                    ;
                }
                let recon = floor_div_2048(v1 + v3 * (g as i64) * 2048 + 1024);
                let v2c = clamp_to_i16(recon);
                let ghost ins0 = ins@;
                ins[s + 2] = v2c;
                proof {
                    assert(ins@ == ins0.update(s + 2, v2c));
                    assert(ins@[s as int] == ins0[s as int]);
                    assert(ins@[s + 1] == ins0[s + 1]);
                    assert(flat[2 * i as int] == c1);
                    assert(flat[2 * i as int + 1] == c2);
                    let yn1 = ins@[s + 1];
                    let yn2 = ins@[s as int];
                    let num = 0x400 + spec_scale(ps) * (v3 as int) * 0x800 + c1 as int * yn1 as int
                        + c2 as int * yn2 as int;
                    assert(v1 as int == ins@[s as int] as int * c2 as int + ins@[s + 1] as int
                        * c1 as int);
                    assert(v1 as int == c2 as int * yn2 as int + c1 as int * yn1 as int)
                        by (nonlinear_arith)
                        requires
                            v1 as int == yn2 as int * c2 as int + yn1 as int * c1 as int,
                    ;
                    assert(v3 as int * (g as int) * 2048 == spec_scale(ps) * (v3 as int) * 0x800)
                        by (nonlinear_arith)
                        requires
                            g as int == spec_scale(ps),
                    ;
                    assert(v1 as int + v3 as int * (g as int) * 2048 + 1024 == num);
                    assert(recon as int == num / 0x800);
                    assert(v2c == spec_clamp_i16(num / 0x800));
                    assert(ins@[s + 2] == v2c);
                    assert(spec_decode_sample(ps, v3 as int, flat, yn1, yn2) == spec_clamp_i16(
                        num / 0x800,
                    ));
                    assert(ins@[s + 2] == spec_decode_sample(
                        ps,
                        v3 as int,
                        flat,
                        ins@[s + 1],
                        ins@[s as int],
                    ));
                }
                let diff = pcm_in_out[s + 2] as i64 - v2c as i64;
                proof {
                    assert(0 <= diff * diff <= 0xFFFE0001) by (nonlinear_arith)
                        requires
                            -0xFFFF <= diff <= 0xFFFF,
                    ;
                }
                dist_accum = dist_accum + (diff * diff) as u64;
                s = s + 1;
                proof {
                    let orig = old(pcm_in_out)@;
                    let gi = g as int;
                    let st_prev = spec_round_state(orig, c1, c2, gi, s as int - 1);
                    let st_new = spec_round_state(orig, c1, c2, gi, s as int);
                    lemma_round_state_len(orig, c1, c2, gi, s as int - 1);
                    lemma_round_state_len(orig, c1, c2, gi, s as int);
                    assert(st_prev.0[s as int - 1] == ins0[s as int - 1]);
                    assert(st_prev.0[s as int] == ins0[s as int]);
                    assert(v1 as int == st_prev.0[s as int - 1] as int * c2 as int + st_prev.0[
                        s as int
                    ] as int * c1 as int);
                    assert(v2 as int == spec_tdiv(orig[s as int + 1] * 2048 - (st_prev.0[
                        s as int - 1
                    ] * c2 + st_prev.0[s as int] * c1), 0x800));
                    assert(raw_g == spec_round_nibble(v2 as int, gi));
                    let spec_v3 = if raw_g < -8 {
                        -8int
                    } else if raw_g > 7 {
                        7int
                    } else {
                        raw_g
                    };
                    assert(v3 as int == spec_v3);
                    let spec_v1 = st_prev.0[s as int - 1] * c2 + st_prev.0[s as int] * c1;
                    assert(spec_v3 * gi * 2048 == v3 as int * (g as int) * 2048);
                    assert(spec_v1 + spec_v3 * gi * 2048 + 1024 == v1 as int + v3 as int * (
                    g as int) * 2048 + 1024);
                    assert(v2c == spec_clamp_i16((spec_v1 + spec_v3 * gi * 2048 + 1024) / 0x800));
                    assert(index as int == (if raw_g < -8 && -8 - raw_g > st_prev.2 {
                        -8 - raw_g
                    } else if raw_g > 7 && raw_g - 7 > st_prev.2 {
                        raw_g - 7
                    } else {
                        st_prev.2
                    }));
                    assert(index as int == st_new.2);
                    assert(dist_accum as int == st_new.1);
                    assert(spec_round_nibble(
                        spec_tdiv(orig[s as int + 1] * 2048 - spec_v1, 0x800),
                        gi,
                    ) == raw_g);
                    assert(st_new.0[s as int + 1] == spec_clamp_i16(
                        (spec_v1 + spec_v3 * gi * 2048 + 1024) / 0x800,
                    ));
                    assert(ins@[s as int + 1] == st_new.0[s as int + 1]);
                    assert(st_new.0 == st_prev.0.update(s as int + 1, st_new.0[s as int + 1]));
                    assert forall|j: int| 0 <= j < s + 2 implies #[trigger] ins@[j] == st_new.0[j]
                        by {
                        if j < s + 1 {
                            assert(st_new.0[j] == st_prev.0[j]);
                        }
                    }
                }
            }
            proof {
                assert(spec_round_state(
                    old(pcm_in_out)@,
                    c1,
                    c2,
                    g as int,
                    sample_count as int,
                ).1 == dist_accum as int);
                assert(spec_round_state(
                    old(pcm_in_out)@,
                    c1,
                    c2,
                    g as int,
                    sample_count as int,
                ).2 == index as int);
            }
            if rounds >= 32 {
                // Give up on a search that keeps overflowing; keep the last
                // reconstruction, which stays consistent with `scale`.
                again = false;
                proof {
                    assert((scale as int, dist_accum as int) == spec_search(
                        old(pcm_in_out)@,
                        sample_count as int,
                        c1,
                        c2,
                        scale_pre,
                        rounds_pre,
                    ));
                }
            } else {
                let x0: i64 = index + 8;
                if x0 > 256 {
                    let ghost sc_entry = scale as int;
                    let mut x = x0;
                    while x > 256
                        invariant
                            -1 <= scale <= 12,
                            0 <= x <= x0,
                            x < x0 ==> scale <= 11,
                            x0 <= 0x20_0000 + 8,
                            spec_xloop(scale as int, x as int) == spec_xloop(sc_entry, x0 as int),
                        decreases x,
                    {
                        scale = scale + 1;
                        if scale >= 12 {
                            scale = 11;
                        }
                        x = trunc_div_2(x);
                    }
                    again = true;
                    proof {
                        assert(scale as int == spec_xloop(sc_entry, x0 as int));
                        assert(spec_search(
                            old(pcm_in_out)@,
                            sample_count as int,
                            c1,
                            c2,
                            scale as int,
                            rounds as int,
                        ) == spec_search(
                            old(pcm_in_out)@,
                            sample_count as int,
                            c1,
                            c2,
                            scale_pre,
                            rounds_pre,
                        ));
                    }
                } else {
                    again = scale < 12 && index > 1;
                    proof {
                        if again {
                            assert(spec_search(
                                old(pcm_in_out)@,
                                sample_count as int,
                                c1,
                                c2,
                                scale as int,
                                rounds as int,
                            ) == spec_search(
                                old(pcm_in_out)@,
                                sample_count as int,
                                c1,
                                c2,
                                scale_pre,
                                rounds_pre,
                            ));
                        } else {
                            assert((scale as int, dist_accum as int) == spec_search(
                                old(pcm_in_out)@,
                                sample_count as int,
                                c1,
                                c2,
                                scale_pre,
                                rounds_pre,
                            ));
                        }
                    }
                }
            }
        }
        proof {
            assert(dist_accum as int == spec_pair_dist(
                old(pcm_in_out)@,
                sample_count as int,
                coefs_in@[i as int]@[0],
                coefs_in@[i as int]@[1],
            ));
        }
        let ghost old_best_dist = best_dist;
        let ghost old_best_index = best_index;
        if dist_accum < best_dist {
            best_dist = dist_accum;
            best_index = i;
            best_scale = scale;
            best_ins = ins;
            best_outs = outs;
        }
        i = i + 1;
        proof {
            if old_best_dist == best_dist {
                assert(best_index == old_best_index);
                assert(best_dist as int == spec_pair_dist(
                    old(pcm_in_out)@,
                    sample_count as int,
                    coefs_in@[best_index as int]@[0],
                    coefs_in@[best_index as int]@[1],
                ));
            } else {
                assert(best_index as int == i as int - 1);
                assert(best_dist == dist_accum);
                assert(best_dist as int == spec_pair_dist(
                    old(pcm_in_out)@,
                    sample_count as int,
                    coefs_in@[best_index as int]@[0],
                    coefs_in@[best_index as int]@[1],
                ));
            }
            assert(best_dist as int == spec_pair_dist(
                old(pcm_in_out)@,
                sample_count as int,
                coefs_in@[best_index as int]@[0],
                coefs_in@[best_index as int]@[1],
            ));
            assert forall|j: int| 0 <= j < i implies #[trigger] spec_pair_dist(
                old(pcm_in_out)@,
                sample_count as int,
                coefs_in@[j]@[0],
                coefs_in@[j]@[1],
            ) >= best_dist as int by {
                if j < i - 1 {
                } else {
                    assert(j == i - 1);
                }
            }
            assert forall|j: int| 0 <= j < best_index implies #[trigger] spec_pair_dist(
                old(pcm_in_out)@,
                sample_count as int,
                coefs_in@[j]@[0],
                coefs_in@[j]@[1],
            ) > best_dist as int by {
                if best_index == i - 1 {
                    assert(spec_pair_dist(
                        old(pcm_in_out)@,
                        sample_count as int,
                        coefs_in@[j]@[0],
                        coefs_in@[j]@[1],
                    ) >= old_best_dist as int);
                }
            }
        }
    }

    let ps: u8 = (best_index as u8) * 16 + (best_scale as u8);
    let mut adpcm_out: [u8; 8] = [0; 8];
    adpcm_out[0] = ps;
    let mut y: usize = 0;
    while y < 7
        invariant
            y <= 7,
            adpcm_out@.len() == 8,
            adpcm_out@[0] == ps,
            best_outs@.len() == 14,
            forall|k: int| 0 <= k < 14 ==> -8 <= #[trigger] best_outs@[k] <= 7,
            forall|t: int|
                0 <= t < 2 * y ==> #[trigger] spec_nibble(adpcm_out@, t) == best_outs@[t],
        decreases 7 - y,
    {
        let hi = nib_bits(best_outs[2 * y]);
        let lo = nib_bits(best_outs[2 * y + 1]);
        let b: u8 = hi * 16 + lo;
        let ghost av0 = adpcm_out@;
        adpcm_out[y + 1] = b;
        proof {
            let av = adpcm_out@;
            assert(av == av0.update(y + 1, b));
            assert((b as int) / 16 == hi as int) by (nonlinear_arith)
                requires
                    b == hi * 16 + lo,
                    0 <= lo < 16,
                    0 <= hi <= 15,
            ;
            assert((b as int) % 16 == lo as int) by (nonlinear_arith)
                requires
                    b == hi * 16 + lo,
                    0 <= lo < 16,
                    0 <= hi <= 15,
            ;
            assert forall|t: int| 0 <= t < 2 * y + 2 implies #[trigger] spec_nibble(av, t)
                == best_outs@[t] by {
                assert(t / 14 == 0);
                if t < 2 * y {
                    assert(t / 2 < y);
                    assert(av[1 + t / 2] == av0[1 + t / 2]);
                    assert(spec_nibble_byte(av, t) == spec_nibble_byte(av0, t));
                    assert(spec_nibble(av0, t) == best_outs@[t]);
                } else {
                    assert(t / 2 == y);
                    assert(spec_nibble_byte(av, t) == b);
                    if t % 2 == 0 {
                        let vo = best_outs@[2 * y as int];
                        assert(t == 2 * y);
                        assert(hi as int == (vo as int) % 16);
                        if vo >= 0 {
                            assert((vo as int) % 16 == vo as int);
                            assert(spec_nibble(av, t) == vo as int);
                        } else {
                            assert((vo as int) % 16 == vo as int + 16);
                            assert(spec_nibble(av, t) == vo as int);
                        }
                    } else {
                        let vo = best_outs@[2 * y as int + 1];
                        assert(t == 2 * y + 1);
                        assert(lo as int == (vo as int) % 16);
                        if vo >= 0 {
                            assert((vo as int) % 16 == vo as int);
                            assert(spec_nibble(av, t) == vo as int);
                        } else {
                            assert((vo as int) % 16 == vo as int + 16);
                            assert(spec_nibble(av, t) == vo as int);
                        }
                    }
                }
            }
        }
        y = y + 1;
    }
    let mut s: usize = 0;
    while s < sample_count
        invariant
            s <= sample_count,
            sample_count <= 14,
            pcm_in_out@.len() == 16,
            best_ins@.len() == 16,
            forall|j: int| 0 <= j < 2 ==> pcm_in_out@[j] == old(pcm_in_out)@[j],
            forall|j: int| 2 + s <= j < 16 ==> pcm_in_out@[j] == old(pcm_in_out)@[j],
            forall|j: int| 2 <= j < 2 + s ==> pcm_in_out@[j] == best_ins@[j],
        decreases sample_count - s,
    {
        pcm_in_out[s + 2] = best_ins[s + 2];
        s = s + 1;
    }
    proof {
        assert(ps as int / 16 == best_index as int) by (nonlinear_arith)
            requires
                ps == best_index * 16 + best_scale,
                0 <= best_scale <= 12,
                0 <= best_index < 8,
        ;
        assert(ps as int % 16 == best_scale as int) by (nonlinear_arith)
            requires
                ps == best_index * 16 + best_scale,
                0 <= best_scale <= 12,
                0 <= best_index < 8,
        ;
        assert forall|t: int| 0 <= t < sample_count implies #[trigger] spec_ps_byte(adpcm_out@, t)
            == adpcm_out@[0] by {
            assert(t / 14 == 0);
        }
        lemma_decode_matches(
            adpcm_out@,
            sample_count as int,
            flat,
            best_ins@,
            best_outs@,
        );
        assert(final(pcm_in_out)@.subrange(2, 2 + sample_count) =~= best_ins@.subrange(
            2,
            2 + sample_count,
        ));
    }
    adpcm_out
}

} // verus!
