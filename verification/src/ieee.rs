//! Binary floating-point numbers as their bits: what the bits of an IEEE 754
//! single or double amount to once the fraction is cut off, and the
//! conversion of integers by wrapping.

use vstd::prelude::*;
use crate::bigendian::twos_complement;

verus! {

/// Two to the power `n`.
pub open spec fn two_to(n: nat) -> nat
    decreases n,
{
    if n == 0 {
        1
    } else {
        2 * two_to((n - 1) as nat)
    }
}

/// The magnitude, rounded toward zero, of the number with the given
/// exponent field and fraction field: `(2^fraction_bits + fraction) *
/// 2^(exponent - bias - fraction_bits)`. With an exponent field of 0 the
/// number is below one.
pub open spec fn truncated_magnitude(exponent: nat, fraction: nat, fraction_bits: nat, bias: nat) -> nat {
    let significand = two_to(fraction_bits) + fraction;
    let point = bias + fraction_bits;
    if exponent == 0 {
        0
    } else if exponent >= point {
        significand * two_to((exponent - point) as nat)
    } else {
        significand / two_to((point - exponent) as nat)
    }
}

/// The number that the fields encode, rounded toward zero. Where the
/// exponent field is `top`, an empty fraction makes an infinity, which
/// counts as two to the power `top - bias`, and any other a NaN, which
/// counts as 0.
pub open spec fn truncated(
    negative: bool,
    exponent: nat,
    fraction: nat,
    fraction_bits: nat,
    bias: nat,
    top: nat,
) -> int {
    let magnitude = if exponent == top {
        if fraction == 0 {
            two_to((top - bias) as nat)
        } else {
            0
        }
    } else {
        truncated_magnitude(exponent, fraction, fraction_bits, bias)
    };
    if negative {
        -(magnitude as int)
    } else {
        magnitude as int
    }
}

/// The number that the bits of a single encode, rounded toward zero: one
/// sign bit, 8 exponent bits with bias 127, 23 fraction bits.
pub open spec fn single_truncated(bits: u32) -> int {
    truncated(
        bits >= 0x8000_0000,
        ((bits / 0x80_0000) % 0x100) as nat,
        (bits % 0x80_0000) as nat,
        23,
        127,
        255,
    )
}

/// The number that the bits of a double encode, rounded toward zero: one
/// sign bit, 11 exponent bits with bias 1023, 52 fraction bits.
pub open spec fn double_truncated(bits: u64) -> int {
    truncated(
        bits >= 0x8000_0000_0000_0000,
        ((bits / 0x10_0000_0000_0000) % 0x800) as nat,
        (bits % 0x10_0000_0000_0000) as nat,
        52,
        1023,
        2047,
    )
}

/// `v`, or the bound that it exceeds.
pub open spec fn clamped(v: int, lo: int, hi: int) -> int {
    if v < lo {
        lo
    } else if v > hi {
        hi
    } else {
        v
    }
}

/// `v` in two's complement of as many bits as `modulus` is two to the power
/// of: the number between `-modulus / 2` and `modulus / 2 - 1` that differs
/// from `v` by a multiple of `modulus`.
pub open spec fn wrapped(v: int, modulus: int) -> int {
    twos_complement((v % modulus) as nat, modulus)
}

/// Powers of two multiply as their exponents add.
pub proof fn lemma_two_to_add(a: nat, b: nat)
    ensures
        two_to(a + b) == two_to(a) * two_to(b),
    decreases b,
{
    if b > 0 {
        lemma_two_to_add(a, (b - 1) as nat);
        assert(two_to(a + b) == 2 * two_to((a + b - 1) as nat));
        assert(2 * (two_to(a) * two_to((b - 1) as nat)) == two_to(a) * (2 * two_to((b - 1) as nat)))
            by (nonlinear_arith);
    } else {
        assert(two_to(a) * 1 == two_to(a));
    }
}

/// Powers of two grow with their exponent.
pub proof fn lemma_two_to_grows(a: nat, b: nat)
    requires
        a <= b,
    ensures
        1 <= two_to(a) <= two_to(b),
    decreases b,
{
    if b > 0 {
        if a < b {
            lemma_two_to_grows(a, (b - 1) as nat);
        } else {
            lemma_two_to_grows((a - 1) as nat, (b - 1) as nat);
        }
    }
}

/// The powers of two that the conversions meet.
pub proof fn lemma_two_to_values()
    ensures
        two_to(8) == 0x100,
        two_to(16) == 0x1_0000,
        two_to(32) == 0x1_0000_0000,
        two_to(23) == 0x80_0000,
        two_to(24) == 0x100_0000,
        two_to(52) == 0x10_0000_0000_0000,
        two_to(53) == 0x20_0000_0000_0000,
        two_to(104) == 0x100_0000_0000_0000_0000_0000_0000,
        two_to(127) == 0x8000_0000_0000_0000_0000_0000_0000_0000,
{
    reveal_with_fuel(two_to, 9);
    assert(two_to(8) == 0x100);
    lemma_two_to_add(8, 8);
    assert(two_to(16) == 0x1_0000);
    assert(two_to(7) == 0x80);
    lemma_two_to_add(16, 7);
    lemma_two_to_add(16, 8);
    lemma_two_to_add(16, 16);
    assert(two_to(32) == 0x1_0000_0000);
    lemma_two_to_add(32, 16);
    assert(two_to(48) == 0x1_0000_0000_0000);
    assert(two_to(4) == 0x10);
    assert(two_to(5) == 0x20);
    lemma_two_to_add(48, 4);
    lemma_two_to_add(48, 5);
    lemma_two_to_add(32, 32);
    assert(two_to(64) == 0x1_0000_0000_0000_0000);
    lemma_two_to_add(64, 8);
    assert(two_to(72) == 0x100_0000_0000_0000_0000);
    lemma_two_to_add(72, 32);
    lemma_two_to_add(104, 23);
}

/// Two to the power `k`.
fn power_of_two(k: u32) -> (p: u128)
    requires
        k <= 126,
    ensures
        p == two_to(k as nat),
        p < 0x8000_0000_0000_0000_0000_0000_0000_0000,
{
    let mut p: u128 = 1;
    let mut i: u32 = 0;
    while i < k
        invariant
            i <= k <= 126,
            p == two_to(i as nat),
        decreases k - i,
    {
        proof {
            lemma_two_to_grows((i + 1) as nat, 126);
            lemma_two_to_grows(126, 127);
            lemma_two_to_values();
            assert(two_to(127) == 2 * two_to(126));
        }
        p = p * 2;
        i += 1;
    }
    proof {
        lemma_two_to_grows(k as nat, 126);
        lemma_two_to_values();
        assert(two_to(127) == 2 * two_to(126));
    }
    p
}

/// The magnitude of the number that the fields encode, rounded toward zero,
/// or two to the power 127 where it is at least that.
fn capped_magnitude(exponent: u32, fraction: u64, fraction_bits: u32, bias: u32, top: u32) -> (m:
    u128)
    requires
        (fraction_bits == 23 && bias == 127 && top == 255) || (fraction_bits == 52 && bias == 1023
            && top == 2047),
        fraction < two_to(fraction_bits as nat),
        exponent <= top,
    ensures
        m <= 0x8000_0000_0000_0000_0000_0000_0000_0000,
        ({
            let exact = truncated(
                false,
                exponent as nat,
                fraction as nat,
                fraction_bits as nat,
                bias as nat,
                top as nat,
            );
            m == if exact >= 0x8000_0000_0000_0000_0000_0000_0000_0000 {
                0x8000_0000_0000_0000_0000_0000_0000_0000
            } else {
                exact
            }
        }),
{
    let cap: u128 = 0x8000_0000_0000_0000_0000_0000_0000_0000;
    proof {
        lemma_two_to_values();
    }
    if exponent == top {
        proof {
            lemma_two_to_grows(127, (top - bias) as nat);
        }
        return if fraction == 0 {
            cap
        } else {
            0
        };
    }
    if exponent == 0 {
        return 0;
    }
    let significand: u128 = if fraction_bits == 23 {
        0x80_0000 + fraction as u128
    } else {
        0x10_0000_0000_0000 + fraction as u128
    };
    assert(significand == two_to(fraction_bits as nat) + fraction);
    let point = bias + fraction_bits;
    if exponent >= point {
        let k = exponent - point;
        if k >= 127 - fraction_bits {
            proof {
                let least = (127 - fraction_bits) as nat;
                lemma_two_to_grows(least, k as nat);
                lemma_two_to_add(fraction_bits as nat, least);
                let f = two_to(fraction_bits as nat);
                let s = significand as nat;
                let l = two_to(least);
                let p = two_to(k as nat);
                assert(s * p >= f * l) by (nonlinear_arith)
                    requires
                        s >= f,
                        p >= l,
                        f >= 0,
                        l >= 0,
                ;
            }
            return cap;
        }
        let p = power_of_two(k);
        proof {
            let most = (126 - fraction_bits) as nat;
            lemma_two_to_grows(k as nat, most);
            lemma_two_to_add((fraction_bits + 1) as nat, most);
            let f = two_to((fraction_bits + 1) as nat);
            assert(f == 2 * two_to(fraction_bits as nat));
            let s = significand as nat;
            let l = two_to(most);
            assert(s * p < f * l) by (nonlinear_arith)
                requires
                    s < f,
                    1 <= p <= l,
                    s >= 0,
            ;
        }
        significand * p
    } else {
        let k = point - exponent;
        if k > fraction_bits {
            proof {
                lemma_two_to_grows((fraction_bits + 1) as nat, k as nat);
                let s = significand as nat;
                let d = two_to(k as nat);
                assert(two_to((fraction_bits + 1) as nat) == 2 * two_to(fraction_bits as nat));
                assert(s / d == 0) by (nonlinear_arith)
                    requires
                        0 <= s < d,
                ;
            }
            return 0;
        }
        let d = power_of_two(k);
        proof {
            lemma_two_to_grows(0, k as nat);
            let s = significand as nat;
            assert(s / (d as nat) <= s) by (nonlinear_arith)
                requires
                    d >= 1,
                    s >= 0,
            ;
        }
        significand / d
    }
}

/// The number of given sign and magnitude, limited to the range from `lo`
/// to `hi`.
fn limited(negative: bool, magnitude: u128, lo: i128, hi: i128) -> (r: i128)
    requires
        magnitude <= 0x8000_0000_0000_0000_0000_0000_0000_0000,
    ensures
        r == clamped(
            if negative {
                -(magnitude as int)
            } else {
                magnitude as int
            },
            lo as int,
            hi as int,
        ),
{
    let cap: u128 = 0x8000_0000_0000_0000_0000_0000_0000_0000;
    if negative {
        if magnitude == cap {
            lo
        } else {
            let v = -(magnitude as i128);
            if v < lo {
                lo
            } else if v > hi {
                hi
            } else {
                v
            }
        }
    } else {
        if magnitude == cap {
            hi
        } else {
            let v = magnitude as i128;
            if v < lo {
                lo
            } else if v > hi {
                hi
            } else {
                v
            }
        }
    }
}

/// Converts the number that the bits of a single encode to an integer
/// between `lo` and `hi`: the fraction is cut off, a number below `lo`
/// becomes `lo`, one above `hi` becomes `hi`, and a NaN counts as 0.
pub fn single_to_integer(bits: u32, lo: i128, hi: i128) -> (r: i128)
    ensures
        r == clamped(single_truncated(bits), lo as int, hi as int),
{
    let negative = bits >= 0x8000_0000;
    let exponent = (bits / 0x80_0000) % 0x100;
    let fraction = (bits % 0x80_0000) as u64;
    proof {
        lemma_two_to_values();
    }
    let magnitude = capped_magnitude(exponent, fraction, 23, 127, 255);
    limited(negative, magnitude, lo, hi)
}

/// Converts the number that the bits of a double encode to an integer
/// between `lo` and `hi`, as `single_to_integer` does for a single.
pub fn double_to_integer(bits: u64, lo: i128, hi: i128) -> (r: i128)
    ensures
        r == clamped(double_truncated(bits), lo as int, hi as int),
{
    let negative = bits >= 0x8000_0000_0000_0000;
    let exponent = ((bits / 0x10_0000_0000_0000) % 0x800) as u32;
    let fraction = bits % 0x10_0000_0000_0000;
    proof {
        lemma_two_to_values();
    }
    let magnitude = capped_magnitude(exponent, fraction, 52, 1023, 2047);
    limited(negative, magnitude, lo, hi)
}

/// The residue of `v` modulo two to the power 8, 16 or 32.
pub(crate) fn residue(v: i64, modulus: i128) -> (r: i128)
    requires
        modulus == 0x100 || modulus == 0x1_0000 || modulus == 0x1_0000_0000,
    ensures
        r == (v as int) % (modulus as int),
        0 <= r < modulus,
{
    let w = v as i128;
    if w >= 0 {
        w % modulus
    } else {
        modulus - 1 - ((-(w + 1)) % modulus)
    }
}

/// `v` in two's complement of 8, 16 or 32 bits, of which `modulus` is two
/// to the power.
pub(crate) fn wrap(v: i64, modulus: i128) -> (r: i128)
    requires
        modulus == 0x100 || modulus == 0x1_0000 || modulus == 0x1_0000_0000,
    ensures
        r == wrapped(v as int, modulus as int),
        -modulus <= 2 * r < modulus,
{
    let residue = residue(v, modulus);
    if 2 * residue >= modulus {
        residue - modulus
    } else {
        residue
    }
}

} // verus!
