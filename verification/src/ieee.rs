use vstd::prelude::*;
use vstd::arithmetic::power2::pow2;
use crate::irap::NAN_BITS;
use crate::irap::UNDEF_MAP_IRAP_ASCII_BITS64;
use crate::irap::UNDEF_MAP_IRAP_BINARY_BITS;

verus! {

// The library never holds a floating-point value: every value is carried as
// its IEEE-754 bit pattern, single precision in a `u32` and double precision
// in a `u64`. This module gives the handful of IEEE operations the codecs
// need, as ordinary integer logic on those patterns.
/// Bit pattern of the single-precision value 360.0.
pub const F32_360_BITS: u32 = 0x43B4_0000;

/// Single-precision magnitude bits of 2^-17: anything at or below it is
/// negligible against half an ulp of 360.
pub const TINY_VS_360: u32 = 0x3700_0000;

/// Single-precision magnitude bits of 2^34: at or above it, 360 is below
/// half an ulp, so adding it changes nothing.
pub const HUGE_VS_360: u32 = 0x5080_0000;

/// The magnitude bits of a single-precision pattern (sign bit cleared).
pub open spec fn abs_bits32(b: u32) -> u32 {
    if b >= 0x8000_0000 {
        (b - 0x8000_0000) as u32
    } else {
        b
    }
}

/// The pattern is a single-precision NaN.
pub open spec fn spec_is_nan32(b: u32) -> bool {
    abs_bits32(b) > 0x7F80_0000
}

/// The magnitude bits of a double-precision pattern (sign bit cleared).
pub open spec fn abs_bits64(b: u64) -> u64 {
    if b >= 0x8000_0000_0000_0000 {
        (b - 0x8000_0000_0000_0000) as u64
    } else {
        b
    }
}

/// The pattern is a double-precision NaN.
pub open spec fn spec_is_nan64(b: u64) -> bool {
    abs_bits64(b) > 0x7FF0_0000_0000_0000
}

/// The double-precision value is strictly negative (IEEE ordering: neither
/// NaN nor negative zero counts).
pub open spec fn spec_is_neg64(b: u64) -> bool {
    b > 0x8000_0000_0000_0000 && !spec_is_nan64(b)
}

/// The single-precision value is at or above the binary undefined threshold
/// 1e30 (IEEE ordering: positive, not NaN; infinity counts).
pub open spec fn spec_bin_undef(b: u32) -> bool {
    UNDEF_MAP_IRAP_BINARY_BITS <= b <= 0x7F80_0000
}

/// The double-precision value is at or above the text undefined threshold
/// 9999900.0 (IEEE ordering: positive, not NaN; infinity counts).
pub open spec fn spec_ascii_undef64(b: u64) -> bool {
    UNDEF_MAP_IRAP_ASCII_BITS64 <= b <= 0x7FF0_0000_0000_0000
}

pub fn is_nan32(b: u32) -> (r: bool)
    ensures
        r == spec_is_nan32(b),
{
    let abs = if b >= 0x8000_0000 {
        b - 0x8000_0000
    } else {
        b
    };
    abs > 0x7F80_0000
}

pub fn is_neg64(b: u64) -> (r: bool)
    ensures
        r == spec_is_neg64(b),
{
    let abs = if b >= 0x8000_0000_0000_0000 {
        b - 0x8000_0000_0000_0000
    } else {
        b
    };
    b > 0x8000_0000_0000_0000 && abs <= 0x7FF0_0000_0000_0000
}

/// What the binary encoder writes for an in-memory value: NaN becomes the
/// binary sentinel 1e30, everything else passes through unchanged.
pub open spec fn spec_encode_sentinel_binary(v: u32) -> u32 {
    if spec_is_nan32(v) {
        UNDEF_MAP_IRAP_BINARY_BITS
    } else {
        v
    }
}

/// What the binary decoder loads for an on-disk value: anything at or above
/// the binary threshold becomes NaN, everything else passes through.
pub open spec fn spec_decode_sentinel_binary(v: u32) -> u32 {
    if spec_bin_undef(v) {
        NAN_BITS
    } else {
        v
    }
}

/// What the text decoder loads for a parsed value: the double-precision
/// parse `v64` decides against the text threshold, and below it the value is
/// stored at single precision as `v32`.
pub open spec fn spec_decode_sentinel_ascii(v64: u64, v32: u32) -> u32 {
    if spec_ascii_undef64(v64) {
        NAN_BITS
    } else {
        v32
    }
}

pub fn encode_sentinel_binary(v: u32) -> (r: u32)
    ensures
        r == spec_encode_sentinel_binary(v),
{
    if is_nan32(v) {
        UNDEF_MAP_IRAP_BINARY_BITS
    } else {
        v
    }
}

pub fn decode_sentinel_binary(v: u32) -> (r: u32)
    ensures
        r == spec_decode_sentinel_binary(v),
{
    if UNDEF_MAP_IRAP_BINARY_BITS <= v && v <= 0x7F80_0000 {
        NAN_BITS
    } else {
        v
    }
}

pub fn decode_sentinel_ascii(v64: u64, v32: u32) -> (r: u32)
    ensures
        r == spec_decode_sentinel_ascii(v64, v32),
{
    if UNDEF_MAP_IRAP_ASCII_BITS64 <= v64 && v64 <= 0x7FF0_0000_0000_0000 {
        NAN_BITS
    } else {
        v32
    }
}

/// Floor of the base-2 logarithm.
pub open spec fn log2floor(m: nat) -> nat
    decreases m,
{
    if m < 2 {
        0
    } else {
        (1 + log2floor(m / 2)) as nat
    }
}

pub proof fn lemma_log2floor_bounds(m: nat)
    requires
        m >= 1,
    ensures
        pow2(log2floor(m)) <= m < pow2(log2floor(m) + 1),
    decreases m,
{
    vstd::arithmetic::power2::lemma2_to64();
    if m >= 2 {
        lemma_log2floor_bounds(m / 2);
        let t = log2floor(m / 2);
        vstd::arithmetic::power2::lemma_pow2_adds(t, 1);
        vstd::arithmetic::power2::lemma_pow2_adds(t + 1, 1);
    }
}

/// Rounds the exact positive magnitude `m * 2^u` to a single-precision
/// pattern with 24 significand bits, nearest value, ties to even, and packs
/// it with the given sign. Meaningful for `1 <= m < 2^49` and a result
/// within the normal range.
pub open spec fn pack_round32(neg: bool, m: nat, u: int) -> u32 {
    let t = log2floor(m);
    let qe: (nat, nat) = if t <= 23 {
        (m * pow2((23 - t) as nat), t)
    } else {
        let p = pow2((t - 23) as nat);
        let q0 = m / p;
        let r = m % p;
        let q1 = if 2 * r > p || (2 * r == p && q0 % 2 == 1) {
            (q0 + 1) as nat
        } else {
            q0
        };
        if q1 == pow2(24) {
            (pow2(23), (t + 1) as nat)
        } else {
            (q1, t)
        }
    };
    let ebits = qe.1 + u + 127;
    ((if neg {
        0x8000_0000int
    } else {
        0int
    }) + ebits * 0x80_0000 + (qe.0 - pow2(23))) as u32
}

/// The single-precision sum `360.0 + x` for a non-positive (or NaN) `x`,
/// IEEE round to nearest, ties to even. This is the rotation normalization
/// step: decode adds 360 to a negative rotation angle.
///
/// Outside half an ulp of 360 the answer is immediate; in between, the exact
/// difference is formed in integer units of the lower of the two unit bits
/// and rounded back to single precision.
pub open spec fn spec_rot_plus_360(x: u32) -> u32 {
    let ax = abs_bits32(x);
    if ax <= TINY_VS_360 {
        F32_360_BITS
    } else if ax >= HUGE_VS_360 {
        x
    } else {
        let eb = ax / 0x80_0000;
        let mx = (ax % 0x80_0000 + 0x80_0000) as int;
        let tu: int = if eb <= 153 {
            45int * pow2((153 - eb) as nat)
        } else {
            45int
        };
        let xu: int = if eb <= 153 {
            mx
        } else {
            mx * pow2((eb - 153) as nat) as int
        };
        if xu == tu {
            0u32
        } else {
            let neg = xu > tu;
            let m = if neg {
                xu - tu
            } else {
                tu - xu
            };
            let u: int = if eb <= 153 {
                eb - 150
            } else {
                3
            };
            pack_round32(neg, m as nat, u)
        }
    }
}

pub(crate) fn pow2_u64(k: u64) -> (r: u64)
    requires
        k <= 63,
    ensures
        r == pow2(k as nat),
{
    proof {
        vstd::arithmetic::power2::lemma2_to64();
        vstd::arithmetic::power2::lemma2_to64_rest();
    }
    let mut i: u64 = 0;
    let mut r: u64 = 1;
    while i < k
        invariant
            i <= k <= 63,
            r == pow2(i as nat),
        decreases k - i,
    {
        proof {
            vstd::arithmetic::power2::lemma_pow2_strictly_increases(i as nat, 63);
            vstd::arithmetic::power2::lemma_pow2_adds(i as nat, 1);
            vstd::arithmetic::power2::lemma2_to64();
            vstd::arithmetic::power2::lemma2_to64_rest();
        }
        r = r * 2;
        i = i + 1;
    }
    r
}

fn log2floor_u64(m: u64) -> (t: u64)
    requires
        m >= 1,
    ensures
        t == log2floor(m as nat),
        t <= 63,
{
    let mut mm: u64 = m;
    let mut t: u64 = 0;
    proof {
        vstd::arithmetic::power2::lemma2_to64();
    }
    while mm >= 2
        invariant
            1 <= mm,
            t + log2floor(mm as nat) == log2floor(m as nat),
            pow2(t as nat) * mm <= m,
        decreases mm,
    {
        proof {
            let tn = t as nat;
            vstd::arithmetic::power2::lemma2_to64();
            vstd::arithmetic::power2::lemma2_to64_rest();
            vstd::arithmetic::power2::lemma_pow2_adds(tn, 1);
            assert(pow2(tn + 1) * (mm as nat / 2) <= pow2(tn) * mm) by (nonlinear_arith)
                requires
                    pow2(tn + 1) == pow2(tn) * 2,
                    mm >= 2,
            ;
            assert(pow2(tn) <= pow2(tn) * mm) by (nonlinear_arith)
                requires
                    mm >= 1,
            ;
            if tn >= 64 {
                if tn > 64 {
                    vstd::arithmetic::power2::lemma_pow2_strictly_increases(64, tn);
                }
                assert(false);
            }
        }
        mm = mm / 2;
        t = t + 1;
    }
    proof {
        vstd::arithmetic::power2::lemma2_to64_rest();
        assert(pow2(t as nat) <= pow2(t as nat) * mm) by (nonlinear_arith)
            requires
                mm >= 1,
        ;
        if t as nat >= 64 {
            if t as nat > 64 {
                vstd::arithmetic::power2::lemma_pow2_strictly_increases(64, t as nat);
            }
            assert(false);
        }
    }
    t
}

/// Computes the single-precision sum `360.0 + x` for a non-positive (or NaN)
/// rotation angle `x`, given and returned as bit patterns.
pub fn rot_plus_360(x: u32) -> (r: u32)
    ensures
        r == spec_rot_plus_360(x),
{
    proof {
        vstd::arithmetic::power2::lemma2_to64();
        vstd::arithmetic::power2::lemma2_to64_rest();
    }
    let ax = if x >= 0x8000_0000 {
        x - 0x8000_0000
    } else {
        x
    };
    if ax <= TINY_VS_360 {
        return F32_360_BITS;
    }
    if ax >= HUGE_VS_360 {
        return x;
    }
    let eb: u32 = ax / 0x80_0000;
    let mx: u32 = ax % 0x80_0000 + 0x80_0000;
    let (tu, xu): (u64, u64) = if eb <= 153 {
        let sh = pow2_u64((153 - eb) as u64);
        proof {
            vstd::arithmetic::power2::lemma_pow2_subtracts(110, 153);
            if 153 - eb < 43 {
                vstd::arithmetic::power2::lemma_pow2_strictly_increases((153 - eb) as nat, 43);
            }
        }
        (45u64 * sh, mx as u64)
    } else {
        let sh = pow2_u64((eb - 153) as u64);
        proof {
            if eb - 153 < 7 {
                vstd::arithmetic::power2::lemma_pow2_strictly_increases((eb - 153) as nat, 7);
            }
            assert((mx as u64) * sh <= 0xFFFFFF * 128) by (nonlinear_arith)
                requires
                    mx <= 0xFFFFFF,
                    sh <= 128,
            ;
        }
        (45u64, (mx as u64) * sh)
    };
    if xu == tu {
        return 0;
    }
    let neg = xu > tu;
    let m: u64 = if neg {
        xu - tu
    } else {
        tu - xu
    };
    assert(1 <= m < pow2(49)) by {
        vstd::arithmetic::power2::lemma2_to64_rest();
    }
    let t = log2floor_u64(m);
    proof {
        lemma_log2floor_bounds(m as nat);
        if t as nat + 1 < 49 {
            vstd::arithmetic::power2::lemma_pow2_strictly_increases(t as nat + 1, 49);
        }
        if t as nat > 49 {
            vstd::arithmetic::power2::lemma_pow2_strictly_increases(49, t as nat);
        }
        assert(t <= 48);
    }
    let (q, e): (u64, u64) = if t <= 23 {
        let sh = pow2_u64(23 - t);
        proof {
            vstd::arithmetic::power2::lemma_pow2_adds(t as nat, (23 - t) as nat);
            vstd::arithmetic::power2::lemma_pow2_adds(t as nat + 1, (23 - t) as nat);
            vstd::arithmetic::power2::lemma_pow2_pos((23 - t) as nat);
            assert(m * sh < pow2(24) && pow2(23) <= m * sh) by (nonlinear_arith)
                requires
                    pow2(t as nat) <= m < pow2(t as nat + 1),
                    sh == pow2((23 - t) as nat),
                    sh >= 1,
                    pow2(t as nat) * pow2((23 - t) as nat) == pow2(23),
                    pow2(t as nat + 1) * pow2((23 - t) as nat) == pow2(24),
            ;
        }
        (m * sh, t)
    } else {
        let p = pow2_u64(t - 23);
        let q0 = m / p;
        let rr = m % p;
        proof {
            vstd::arithmetic::power2::lemma_pow2_pos((t - 23) as nat);
            vstd::arithmetic::power2::lemma_pow2_adds((t - 23) as nat, 23);
            vstd::arithmetic::power2::lemma_pow2_adds((t - 23) as nat, 24);
            vstd::arithmetic::div_mod::lemma_fundamental_div_mod(m as int, p as int);
            assert(pow2(23) <= q0 < pow2(24)) by (nonlinear_arith)
                requires
                    pow2(t as nat) <= m < pow2(t as nat + 1),
                    p == pow2((t - 23) as nat),
                    p >= 1,
                    m == p * q0 + rr,
                    0 <= rr < p,
                    p * pow2(23) == pow2(t as nat),
                    p * pow2(24) == pow2(t as nat + 1),
            ;
        }
        let q1 = if 2 * rr > p || (2 * rr == p && q0 % 2 == 1) {
            q0 + 1
        } else {
            q0
        };
        if q1 == 0x100_0000 {
            (0x80_0000u64, t + 1)
        } else {
            (q1, t)
        }
    };
    let ebits: u64 = if eb <= 153 {
        e + eb as u64 - 23
    } else {
        e + 130
    };
    let bits: u32 = (ebits as u32) * 0x80_0000 + (q as u32 - 0x80_0000);
    if neg {
        bits + 0x8000_0000
    } else {
        bits
    }
}

/// Encoding a missing value and decoding it again yields the missing-value
/// marker, for the binary sentinel convention; a defined value below the
/// threshold passes through unchanged.
pub proof fn lemma_sentinel_equivalence_binary(v: u32)
    ensures
        spec_is_nan32(v) ==> spec_decode_sentinel_binary(spec_encode_sentinel_binary(v))
            == NAN_BITS,
        !spec_is_nan32(v) && !spec_bin_undef(v) ==> spec_decode_sentinel_binary(
            spec_encode_sentinel_binary(v),
        ) == v,
{
}

/// The text sentinel rule, decode side: a parsed value at or above the text
/// threshold loads as the missing-value marker; one just below it loads as
/// its narrowed value, never as NaN.
pub proof fn lemma_sentinel_equivalence_ascii(v64: u64, v32: u32)
    ensures
        spec_ascii_undef64(v64) ==> spec_decode_sentinel_ascii(v64, v32) == NAN_BITS,
        !spec_ascii_undef64(v64) ==> spec_decode_sentinel_ascii(v64, v32) == v32,
{
}

} // verus!
