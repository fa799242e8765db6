//! Single-precision numbers held by their IEEE-754 bit patterns.
//!
//! Geometry, colours and slider values reach the library as `u32` bit patterns. The library
//! stores them, hands them back and orders them; it never does arithmetic on them.

use vstd::arithmetic::power2::lemma_pow2_pos;
use vstd::arithmetic::power2::lemma_pow2_strictly_increases;
use vstd::arithmetic::power2::lemma_pow2_unfold;
use vstd::arithmetic::power2::pow2;
use vstd::prelude::*;

verus! {

/// Bit pattern of zero.
pub const ZERO: u32 = 0;

/// Bit pattern of one half.
pub const HALF: u32 = 0x3f00_0000;

/// Bit pattern of one.
pub const ONE: u32 = 0x3f80_0000;

/// Bit pattern of positive infinity; larger magnitudes are not numbers.
pub const INFINITY: u32 = 0x7f80_0000;

/// Bit pattern of the largest finite number.
pub const LARGEST: u32 = 0x7f7f_ffff;

/// Bit pattern of the lowest finite number.
pub const LOWEST: u32 = 0xff7f_ffff;

/// A linear colour with an alpha channel, each channel by its bit pattern.
#[derive(Clone, Copy, Debug, PartialEq, Eq, Structural)]
pub struct Rgba {
    pub r: u32,
    pub g: u32,
    pub b: u32,
    pub a: u32,
}

impl Rgba {
    /// A colour from its four channels.
    pub fn new(r: u32, g: u32, b: u32, a: u32) -> (c: Rgba)
        ensures
            c == (Rgba { r, g, b, a }),
    {
        Rgba { r, g, b, a }
    }

    /// An opaque grey: the same value in the three colour channels.
    pub fn grey(v: u32) -> (c: Rgba)
        ensures
            c == (Rgba { r: v, g: v, b: v, a: ONE }),
    {
        Rgba { r: v, g: v, b: v, a: ONE }
    }
}

/// The pattern without its sign bit.
pub open spec fn magnitude(bits: u32) -> int {
    bits as int % 0x8000_0000
}

/// The sign bit.
pub open spec fn negative(bits: u32) -> bool {
    bits >= 0x8000_0000
}

/// A pattern that stands for a number or an infinity.
pub open spec fn is_ordered(bits: u32) -> bool {
    magnitude(bits) <= INFINITY
}

/// The absolute value of the pattern with magnitude `m`, in units of the smallest positive
/// number. Infinity counts as the number that would follow the largest finite one.
pub open spec fn absolute(m: int) -> int {
    let exponent = m / 0x80_0000;
    let fraction = m % 0x80_0000;
    if exponent == 0 {
        fraction
    } else {
        (0x80_0000 + fraction) * pow2((exponent - 1) as nat)
    }
}

/// The number that a pattern stands for, in units of the smallest positive number.
pub open spec fn value(bits: u32) -> int {
    if negative(bits) {
        -absolute(magnitude(bits))
    } else {
        absolute(magnitude(bits))
    }
}

/// The order key of a pattern: its magnitude, with the sign applied.
pub open spec fn key_of(bits: u32) -> int {
    if negative(bits) {
        -magnitude(bits)
    } else {
        magnitude(bits)
    }
}

/// The order key of a pattern. Keys compare as the numbers do, so both zeros have key 0.
pub fn order_key(bits: u32) -> (k: i32)
    ensures
        k == key_of(bits),
{
    if bits < 0x8000_0000 {
        bits as i32
    } else {
        0i32 - (bits - 0x8000_0000) as i32
    }
}

/// Whether a pattern stands for a number or an infinity.
pub fn is_number(bits: u32) -> (r: bool)
    ensures
        r == is_ordered(bits),
{
    if bits < 0x8000_0000 {
        bits <= INFINITY
    } else {
        bits - 0x8000_0000 <= INFINITY
    }
}

/// The first number is less than the second. What is not a number is not less than anything.
pub open spec fn is_less(a: u32, b: u32) -> bool {
    is_ordered(a) && is_ordered(b) && key_of(a) < key_of(b)
}

/// Whether the first number is less than the second.
pub fn less(a: u32, b: u32) -> (r: bool)
    ensures
        r == is_less(a, b),
        r == (is_ordered(a) && is_ordered(b) && value(a) < value(b)),
{
    proof {
        if is_ordered(a) && is_ordered(b) {
            law_keys_order_numbers(a, b);
        }
    }
    is_number(a) && is_number(b) && order_key(a) < order_key(b)
}

/// The larger of two numbers; what is not a number gives way to the other.
pub open spec fn larger_of(a: u32, b: u32) -> u32 {
    if !is_ordered(a) || is_less(a, b) {
        b
    } else {
        a
    }
}

/// The larger of two numbers.
pub fn larger(a: u32, b: u32) -> (r: u32)
    ensures
        r == larger_of(a, b),
{
    if !is_number(a) || less(a, b) {
        b
    } else {
        a
    }
}

/// The smaller of two numbers; what is not a number gives way to the other.
pub open spec fn smaller_of(a: u32, b: u32) -> u32 {
    if !is_ordered(a) || is_less(b, a) {
        b
    } else {
        a
    }
}

/// The smaller of two numbers.
pub fn smaller(a: u32, b: u32) -> (r: u32)
    ensures
        r == smaller_of(a, b),
{
    if !is_number(a) || less(b, a) {
        b
    } else {
        a
    }
}

/// The upper of two sides of a box: the first if it is greater, else the second.
pub open spec fn upper_of(a: u32, b: u32) -> u32 {
    if is_less(b, a) {
        a
    } else {
        b
    }
}

/// The upper of two sides of a box.
pub fn upper(a: u32, b: u32) -> (r: u32)
    ensures
        r == upper_of(a, b),
{
    if less(b, a) {
        a
    } else {
        b
    }
}

/// The lower of two sides of a box: the first if it is less, else the second.
pub open spec fn lower_of(a: u32, b: u32) -> u32 {
    if is_less(a, b) {
        a
    } else {
        b
    }
}

/// The lower of two sides of a box.
pub fn lower(a: u32, b: u32) -> (r: u32)
    ensures
        r == lower_of(a, b),
{
    if less(a, b) {
        a
    } else {
        b
    }
}

/// The first number is at least as large as the second.
pub open spec fn is_at_least(a: u32, b: u32) -> bool {
    is_ordered(a) && is_ordered(b) && key_of(a) >= key_of(b)
}

/// Whether the first number is at least as large as the second.
pub fn at_least(a: u32, b: u32) -> (r: bool)
    ensures
        r == is_at_least(a, b),
{
    is_number(a) && is_number(b) && order_key(a) >= order_key(b)
}

/// A finite number.
pub open spec fn is_finite(bits: u32) -> bool {
    magnitude(bits) < INFINITY
}

/// Whether a number is finite.
pub fn finite(bits: u32) -> (r: bool)
    ensures
        r == is_finite(bits),
{
    bits % 0x8000_0000 < INFINITY
}

proof fn lemma_absolute_increases(m: int, n: int)
    requires
        0 <= m < n,
    ensures
        0 <= absolute(m) < absolute(n),
{
    let e = m / 0x80_0000;
    let f = n / 0x80_0000;
    let x = m % 0x80_0000;
    let y = n % 0x80_0000;
    assert(e <= f);
    if e > 0 {
        lemma_pow2_pos((e - 1) as nat);
    }
    if f > 0 {
        lemma_pow2_pos((f - 1) as nat);
    }
    if e == f {
        assert(x < y);
        if e > 0 {
            let p = pow2((e - 1) as nat) as int;
            assert(0 <= (0x80_0000 + x) * p < (0x80_0000 + y) * p) by (nonlinear_arith)
                requires
                    0 <= x < y,
                    p > 0,
            ;
        }
    } else if e == 0 {
        let q = pow2((f - 1) as nat) as int;
        assert((0x80_0000 + y) * q >= 0x80_0000) by (nonlinear_arith)
            requires
                y >= 0,
                q >= 1,
        ;
    } else {
        let p = pow2((e - 1) as nat) as int;
        let q = pow2((f - 1) as nat) as int;
        lemma_pow2_unfold(e as nat);
        assert(pow2(e as nat) == 2 * p);
        if e < f - 1 {
            lemma_pow2_strictly_increases(e as nat, (f - 1) as nat);
        }
        assert(2 * p <= q);
        assert(0 <= (0x80_0000 + x) * p < (0x80_0000 + y) * q) by (nonlinear_arith)
            requires
                0 <= x < 0x80_0000,
                y >= 0,
                p > 0,
                2 * p <= q,
        ;
    }
}

/// Order keys compare as the numbers do, for every pair of patterns that are not NaN.
pub proof fn law_keys_order_numbers(a: u32, b: u32)
    requires
        is_ordered(a),
        is_ordered(b),
    ensures
        key_of(a) < key_of(b) <==> value(a) < value(b),
        key_of(a) == key_of(b) <==> value(a) == value(b),
{
    let m = magnitude(a);
    let n = magnitude(b);
    if m < n {
        lemma_absolute_increases(m, n);
    } else if n < m {
        lemma_absolute_increases(n, m);
    }
    if m > 0 {
        lemma_absolute_increases(0, m);
    }
    if n > 0 {
        lemma_absolute_increases(0, n);
    }
    assert(absolute(0) == 0);
}

/// Of two numbers, the larger is one of them and not less than either, the smaller is one of them
/// and not greater than either, and of one that is a number and one that is not, both are the
/// number. The sides of a box are ordered in the same way.
pub proof fn law_larger_and_smaller(a: u32, b: u32)
    ensures
        is_ordered(a) && is_ordered(b) ==> {
            let hi = larger_of(a, b);
            let lo = smaller_of(a, b);
            &&& (hi == a || hi == b) && value(hi) >= value(a) && value(hi) >= value(b)
            &&& (lo == a || lo == b) && value(lo) <= value(a) && value(lo) <= value(b)
            &&& value(upper_of(a, b)) == value(hi)
            &&& value(lower_of(a, b)) == value(lo)
            &&& upper_of(a, b) == a || upper_of(a, b) == b
            &&& lower_of(a, b) == a || lower_of(a, b) == b
        },
        is_ordered(a) && !is_ordered(b) ==> larger_of(a, b) == a && smaller_of(a, b) == a,
        !is_ordered(a) && is_ordered(b) ==> larger_of(a, b) == b && smaller_of(a, b) == b,
        !is_ordered(a) || !is_ordered(b) ==> upper_of(a, b) == b && lower_of(a, b) == b,
{
    if is_ordered(a) && is_ordered(b) {
        law_keys_order_numbers(a, b);
        law_keys_order_numbers(b, a);
    }
}

/// To be at least as large, for numbers, is to have at least the value; what is not a number is
/// neither less nor at least as large. Both zeros are zero.
pub proof fn law_comparisons_go_by_value(a: u32, b: u32)
    ensures
        is_ordered(a) && is_ordered(b) ==> (is_at_least(a, b) <==> value(a) >= value(b)),
        is_ordered(a) && is_ordered(b) ==> (is_less(a, b) <==> value(a) < value(b)),
        !is_ordered(a) || !is_ordered(b) ==> !is_less(a, b) && !is_at_least(a, b),
        is_finite(a) ==> is_ordered(a),
        a == 0x7f80_0000 || a == 0xff80_0000 ==> is_ordered(a) && !is_finite(a),
        value(0) == 0 && value(0x8000_0000) == 0,
{
    if is_ordered(a) && is_ordered(b) {
        law_keys_order_numbers(a, b);
    }
    assert(absolute(0) == 0);
}

} // verus!
