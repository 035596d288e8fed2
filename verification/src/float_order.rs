//! The order of single-precision numbers, read off their bit patterns.
use vstd::arithmetic::power2::pow2;
use vstd::prelude::*;

verus! {

/// The pattern without its sign bit.
pub open spec fn magnitude(bits: u32) -> int {
    if bits < 0x8000_0000 {
        bits as int
    } else {
        bits - 0x8000_0000
    }
}

/// The pattern stands for no number.
pub open spec fn is_nan(bits: u32) -> bool {
    magnitude(bits) > 0x7f80_0000
}

/// An integer that orders the numbers as their values do; both zeros map to zero.
pub open spec fn order_key(bits: u32) -> int {
    if bits < 0x8000_0000 {
        magnitude(bits)
    } else {
        -magnitude(bits)
    }
}

/// `a` is less than `b`; nothing is less or greater than a pattern that is no number.
pub open spec fn less(a: u32, b: u32) -> bool {
    !is_nan(a) && !is_nan(b) && order_key(a) < order_key(b)
}

/// `a` is at most `b`.
pub open spec fn at_most(a: u32, b: u32) -> bool {
    !is_nan(a) && !is_nan(b) && order_key(a) <= order_key(b)
}

/// The pattern of 1.
pub const ONE: u32 = 0x3f80_0000;

fn key(bits: u32) -> (k: i64)
    ensures
        k == order_key(bits),
        -0x8000_0000 < k < 0x8000_0000,
{
    if bits < 0x8000_0000 {
        bits as i64
    } else {
        -((bits - 0x8000_0000) as i64)
    }
}

/// Whether the pattern stands for no number.
pub fn is_nan_bits(bits: u32) -> (b: bool)
    ensures
        b == is_nan(bits),
{
    let m: u32 = if bits < 0x8000_0000 {
        bits
    } else {
        bits - 0x8000_0000
    };
    m > 0x7f80_0000
}

/// Whether the number of `a` is less than that of `b`.
pub fn less_bits(a: u32, b: u32) -> (r: bool)
    ensures
        r == less(a, b),
{
    !is_nan_bits(a) && !is_nan_bits(b) && key(a) < key(b)
}

/// Whether the number lies between 0 and 1, both ends counted.
pub fn in_unit_interval(bits: u32) -> (r: bool)
    ensures
        r == (at_most(0, bits) && at_most(bits, ONE)),
{
    !is_nan_bits(bits) && 0 <= key(bits) && key(bits) <= key(ONE)
}

/// The strict order is irreflexive and transitive.
pub proof fn law_less_is_strict_order(a: u32, b: u32, c: u32)
    ensures
        !less(a, a),
        less(a, b) && less(b, c) ==> less(a, c),
{
}

/// The value of a pattern without a sign, in units of the smallest positive number: the
/// fraction alone where the exponent is zero, else the fraction with its leading one,
/// doubled for every exponent above one.
pub open spec fn units(m: int) -> int {
    if m < 0x80_0000 {
        m
    } else {
        (0x80_0000 + m % 0x80_0000) * pow2((m / 0x80_0000 - 1) as nat)
    }
}

/// The value of a pattern, in units of the smallest positive number; infinity is the power
/// of two that follows the numbers.
pub open spec fn value_in_units(bits: u32) -> int {
    if bits < 0x8000_0000 {
        units(bits as int)
    } else {
        -units(bits - 0x8000_0000)
    }
}

proof fn lemma_units_grow_by_one(m: int)
    requires
        0 <= m,
    ensures
        units(m) < units(m + 1),
        units(0) == 0,
{
    let d: int = 0x80_0000;
    if m + 1 < d {
        assert(units(m) == m && units(m + 1) == m + 1);
    } else if m < d {
        assert((m + 1) / d == 1 && (m + 1) % d == 0);
        assert(pow2(0) == 1) by {
            vstd::arithmetic::power2::lemma2_to64();
        }
        assert(units(m) == m);
        assert(units(m + 1) == (d + 0) * pow2(0));
        assert((d + 0) * 1 == d);
    } else {
        let e = (m / d - 1) as nat;
        let f = m % d;
        let p = pow2(e) as int;
        assert(p > 0) by {
            vstd::arithmetic::power2::lemma_pow2_pos(e);
        }
        assert(units(m) == (d + f) * p);
        if f + 1 < d {
            assert((m + 1) / d == m / d && (m + 1) % d == f + 1);
            assert(units(m + 1) == (d + (f + 1)) * p);
            assert((d + f) * p < (d + (f + 1)) * p) by (nonlinear_arith)
                requires
                    p > 0,
            ;
        } else {
            assert((m + 1) / d == m / d + 1 && (m + 1) % d == 0);
            assert((m / d + 1 - 1) as nat == e + 1);
            assert(pow2(e + 1) == 2 * p) by {
                vstd::arithmetic::power2::lemma_pow2_unfold(e + 1);
            }
            assert(units(m + 1) == (d + 0) * (2 * p));
            assert((d + f) * p < (d + 0) * (2 * p)) by (nonlinear_arith)
                requires
                    p > 0,
                    f < d,
            ;
        }
    }
}

proof fn lemma_units_grow(m: int, n: int)
    requires
        0 <= m < n,
    ensures
        units(m) < units(n),
        0 <= units(m),
    decreases n,
{
    lemma_units_grow_by_one(n - 1);
    if m < n - 1 {
        lemma_units_grow(m, n - 1);
    }
    if m > 0 {
        lemma_units_grow(0, m);
    } else {
        lemma_units_grow_by_one(0);
    }
}

/// The order is that of the values, and a pattern that is no number (its exponent is full
/// and its fraction is not zero) is neither less nor greater than any other.
pub proof fn law_less_compares_values(a: u32, b: u32)
    ensures
        is_nan(a) <==> ((a / 0x80_0000) % 0x100 == 0xff && a % 0x80_0000 != 0),
        is_nan(a) || is_nan(b) ==> !less(a, b) && !at_most(a, b),
        !is_nan(a) && !is_nan(b) ==> (less(a, b) <==> value_in_units(a) < value_in_units(b)),
        !is_nan(a) && !is_nan(b) ==> (at_most(a, b) <==> value_in_units(a) <= value_in_units(b)),
{
    let (m, n) = (magnitude(a), magnitude(b));
    if m < n {
        lemma_units_grow(m, n);
    }
    if n < m {
        lemma_units_grow(n, m);
    }
    if m > 0 {
        lemma_units_grow(0, m);
    }
    if n > 0 {
        lemma_units_grow(0, n);
    }
}

} // verus!
