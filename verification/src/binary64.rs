//! Order of IEEE 754 binary64 numbers, read off their bit patterns.
//!
//! A number is held here as the `u64` that carries its bits: the sign in the
//! top bit, then eleven bits of exponent and fifty-two bits of fraction.
//! Arithmetic on such numbers rounds and is no part of this crate; their
//! order is exact, and is all that the wheel asks of them.
use vstd::arithmetic::power2::{lemma_pow2_pos, lemma_pow2_strictly_increases, lemma_pow2_unfold, pow2};
use vstd::prelude::*;

verus! {

/// The sign bit.
pub const SIGN: u64 = 0x8000_0000_0000_0000;

/// The pattern of positive infinity. A greater magnitude is not a number.
pub const INFINITY: u64 = 0x7FF0_0000_0000_0000;

/// The pattern of 1.0.
pub const ONE: u64 = 0x3FF0_0000_0000_0000;

/// The lowest bit of the exponent, and the leading bit that the fraction of
/// a normal number leaves out.
pub const HIDDEN: u64 = 0x0010_0000_0000_0000;

/// The pattern without its sign bit.
pub open spec fn magnitude(bits: u64) -> int {
    if bits >= SIGN {
        bits - SIGN
    } else {
        bits as int
    }
}

/// The exponent field.
pub open spec fn exponent(bits: u64) -> int {
    magnitude(bits) / HIDDEN as int
}

/// The fraction field.
pub open spec fn fraction(bits: u64) -> int {
    magnitude(bits) % HIDDEN as int
}

/// The pattern is not a number.
pub open spec fn is_nan(bits: u64) -> bool {
    magnitude(bits) > INFINITY
}

/// The absolute value of a number, counted in units of the least positive
/// number, which is 2 to the power of -1074. A subnormal number is its
/// fraction; a normal number is its fraction with the leading bit, doubled
/// once for each step of the exponent above 1. Infinity counts as what the
/// exponent above the greatest would give.
pub open spec fn size(bits: u64) -> int {
    if exponent(bits) == 0 {
        fraction(bits)
    } else {
        (HIDDEN + fraction(bits)) * pow2((exponent(bits) - 1) as nat)
    }
}

/// The value of a number in units of the least positive number. Both zeros
/// have the value 0.
pub open spec fn value(bits: u64) -> int {
    if bits >= SIGN {
        -size(bits)
    } else {
        size(bits)
    }
}

/// `a < b` as IEEE 754 orders two numbers: by their values, and false as
/// soon as one of them is not a number.
pub open spec fn less(a: u64, b: u64) -> bool {
    &&& !is_nan(a)
    &&& !is_nan(b)
    &&& value(a) < value(b)
}

/// The pattern is a number of the half-open interval from 0.0 to 1.0: not
/// below zero, and below one.
pub open spec fn is_unit(bits: u64) -> bool {
    &&& !less(bits, 0)
    &&& less(bits, ONE)
}

/// Numbers are as large as their magnitudes are: of two patterns the one
/// with the greater magnitude has the greater size, and only the zeros have
/// size 0.
pub proof fn lemma_size_follows_magnitude(a: u64, b: u64)
    ensures
        magnitude(a) < magnitude(b) <==> size(a) < size(b),
        magnitude(a) == 0 <==> size(a) == 0,
        0 <= size(a),
{
    lemma_size_grows(a, b);
    lemma_size_grows(b, a);
    let zero: u64 = 0;
    lemma_size_grows(zero, a);
    assert(size(zero) == 0);
}

/// A greater magnitude is a greater size.
proof fn lemma_size_grows(a: u64, b: u64)
    ensures
        magnitude(a) < magnitude(b) ==> size(a) < size(b),
        magnitude(a) == magnitude(b) ==> size(a) == size(b),
{
    let hidden = HIDDEN as int;
    let (ea, fa) = (exponent(a), fraction(a));
    let (eb, fb) = (exponent(b), fraction(b));
    assert(magnitude(a) == ea * hidden + fa && 0 <= fa < hidden && 0 <= ea) by {
        vstd::arithmetic::div_mod::lemma_fundamental_div_mod(magnitude(a), hidden);
    }
    assert(magnitude(b) == eb * hidden + fb && 0 <= fb < hidden && 0 <= eb) by {
        vstd::arithmetic::div_mod::lemma_fundamental_div_mod(magnitude(b), hidden);
    }
    if magnitude(a) < magnitude(b) {
        assert(ea <= eb) by (nonlinear_arith)
            requires
                ea * hidden + fa < eb * hidden + fb,
                0 <= fa < hidden,
                0 <= fb < hidden,
        ;
        if ea == eb {
            assert(fa < fb);
            if ea > 0 {
                let p = pow2((ea - 1) as nat) as int;
                lemma_pow2_pos((ea - 1) as nat);
                assert((hidden + fa) * p < (hidden + fb) * p) by (nonlinear_arith)
                    requires
                        fa < fb,
                        p > 0,
                ;
            }
        } else {
            let q = pow2((eb - 1) as nat) as int;
            lemma_pow2_pos((eb - 1) as nat);
            assert(hidden * q <= (hidden + fb) * q) by (nonlinear_arith)
                requires
                    0 <= fb,
                    q > 0,
            ;
            if ea == 0 {
                assert(hidden * 1 <= hidden * q) by (nonlinear_arith)
                    requires
                        q >= 1,
                        hidden > 0,
                ;
            } else {
                let p = pow2((ea - 1) as nat) as int;
                lemma_pow2_pos((ea - 1) as nat);
                lemma_pow2_unfold(ea as nat);
                if ea < eb - 1 {
                    lemma_pow2_strictly_increases(ea as nat, (eb - 1) as nat);
                }
                assert(pow2(ea as nat) == 2 * p);
                assert(2 * p <= q);
                assert((hidden + fa) * p < hidden * q) by (nonlinear_arith)
                    requires
                        0 <= fa < hidden,
                        p > 0,
                        2 * p <= q,
                ;
            }
        }
    }
}

/// Whether the number with pattern `a` is less than the one with pattern `b`.
pub fn lt(a: u64, b: u64) -> (below: bool)
    ensures
        below == less(a, b),
{
    let a_neg: bool = a >= SIGN;
    let b_neg: bool = b >= SIGN;
    let a_mag: u64 = if a_neg { a - SIGN } else { a };
    let b_mag: u64 = if b_neg { b - SIGN } else { b };
    proof {
        lemma_size_follows_magnitude(a, b);
        lemma_size_follows_magnitude(b, a);
    }
    if a_mag > INFINITY || b_mag > INFINITY {
        false
    } else if a_neg {
        if b_neg {
            b_mag < a_mag
        } else {
            a_mag > 0 || b_mag > 0
        }
    } else {
        !b_neg && a_mag < b_mag
    }
}

} // verus!
