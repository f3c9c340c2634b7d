//! IEEE 754 single-precision values, read off their bit patterns.
//!
//! The top bit is the sign, the next eight the exponent, the rest the
//! mantissa. Read as integers, the low 31 bits order the magnitudes, so
//! comparing two values takes no arithmetic on them.

use crate::doubling::{floor_log2, lemma_log2, log2, power_of_two};
use vstd::arithmetic::power2::{
    lemma2_to64, lemma_pow2_adds, lemma_pow2_pos, lemma_pow2_strictly_increases, pow2,
};
use vstd::prelude::*;

verus! {

/// The bits of positive infinity.
pub const INFINITY: u32 = 0x7F80_0000;

/// The bits without the sign.
pub open spec fn magnitude(bits: u32) -> nat {
    (bits % 0x8000_0000) as nat
}

/// The sign bit is set.
pub open spec fn negative(bits: u32) -> bool {
    bits >= 0x8000_0000
}

/// The bits are those of no number.
pub open spec fn is_nan(bits: u32) -> bool {
    magnitude(bits) > INFINITY
}

/// The magnitude, signed. Both zeros give zero.
pub open spec fn signed(bits: u32) -> int {
    if negative(bits) {
        -magnitude(bits)
    } else {
        magnitude(bits) as int
    }
}

/// `a < b` as numbers: false whenever one of them is no number.
pub open spec fn lt(a: u32, b: u32) -> bool {
    !is_nan(a) && !is_nan(b) && signed(a) < signed(b)
}

/// `a <= b` as numbers: false whenever one of them is no number.
pub open spec fn le(a: u32, b: u32) -> bool {
    !is_nan(a) && !is_nan(b) && signed(a) <= signed(b)
}

/// The place of a value in the total order: negative NaN, negative infinity,
/// the negative numbers, the two zeros with the negative one first, the
/// positive numbers, positive infinity, positive NaN.
pub open spec fn total_key(bits: u32) -> int {
    if negative(bits) {
        -magnitude(bits) - 1
    } else {
        magnitude(bits) as int
    }
}

/// `a < b`.
#[inline]
pub fn less(a: u32, b: u32) -> (r: bool)
    ensures
        r == lt(a, b),
{
    let ma: u32 = a % 0x8000_0000;
    let mb: u32 = b % 0x8000_0000;
    if ma > INFINITY || mb > INFINITY {
        return false;
    }
    let sa: i64 = if a >= 0x8000_0000 {
        -(ma as i64)
    } else {
        ma as i64
    };
    let sb: i64 = if b >= 0x8000_0000 {
        -(mb as i64)
    } else {
        mb as i64
    };
    sa < sb
}

/// `a <= b`.
pub fn at_most(a: u32, b: u32) -> (r: bool)
    ensures
        r == le(a, b),
{
    let ma: u32 = a % 0x8000_0000;
    let mb: u32 = b % 0x8000_0000;
    if ma > INFINITY || mb > INFINITY {
        return false;
    }
    !less(b, a)
}

/// The place of `bits` in the total order.
#[inline]
pub fn total_order(bits: u32) -> (key: i64)
    ensures
        key == total_key(bits),
{
    let m: i64 = (bits % 0x8000_0000) as i64;
    if bits >= 0x8000_0000 {
        -m - 1
    } else {
        m
    }
}

/// The magnitude as a number, in units of the smallest positive one. Infinity
/// stands one step above the largest.
pub open spec fn units(magnitude: nat) -> nat {
    let exponent = magnitude / 0x80_0000;
    let mantissa = magnitude % 0x80_0000;
    if exponent == 0 {
        mantissa
    } else {
        (0x80_0000 + mantissa) * pow2((exponent - 1) as nat)
    }
}

/// The number that the bits stand for, in units of the smallest positive one.
pub open spec fn number(bits: u32) -> int {
    if negative(bits) {
        -(units(magnitude(bits)) as int)
    } else {
        units(magnitude(bits)) as int
    }
}

proof fn lemma_units_increase(a: nat, b: nat)
    requires
        a < b,
    ensures
        units(a) < units(b),
{
    let (ea, ma) = (a / 0x80_0000, a % 0x80_0000);
    let (eb, mb) = (b / 0x80_0000, b % 0x80_0000);
    lemma_pow2_pos((if ea == 0 { 0 } else { ea - 1 }) as nat);
    lemma_pow2_pos((if eb == 0 { 0 } else { eb - 1 }) as nat);
    lemma2_to64();
    if ea == eb {
        if ea > 0 {
            let p = pow2((ea - 1) as nat);
            assert((0x80_0000 + ma) * p < (0x80_0000 + mb) * p) by (nonlinear_arith)
                requires
                    ma < mb,
                    p > 0,
            ;
        }
    } else {
        let q = pow2((eb - 1) as nat);
        assert((0x80_0000 + mb) * q >= 0x80_0000 * q) by (nonlinear_arith)
            requires
                mb >= 0,
                q >= 0,
        ;
        if ea > 0 {
            let p = pow2((ea - 1) as nat);
            lemma_pow2_adds(1, (ea - 1) as nat);
            assert(pow2(ea) == 2 * p);
            if ea < eb - 1 {
                lemma_pow2_strictly_increases(ea, (eb - 1) as nat);
            }
            assert(q >= 2 * p);
            assert((0x80_0000 + ma) * p < 0x100_0000 * p) by (nonlinear_arith)
                requires
                    ma < 0x80_0000,
                    p > 0,
            ;
        } else {
            assert(q >= 1);
        }
    }
}

/// The comparison of bit patterns is the comparison of the numbers that they
/// stand for.
pub proof fn law_less_is_numeric(a: u32, b: u32)
    requires
        !is_nan(a),
        !is_nan(b),
    ensures
        lt(a, b) <==> number(a) < number(b),
{
    let (x, y) = (magnitude(a), magnitude(b));
    lemma2_to64();
    if x < y {
        lemma_units_increase(x, y);
    }
    if y < x {
        lemma_units_increase(y, x);
    }
    if x > 0 {
        lemma_units_increase(0, x);
    }
    if y > 0 {
        lemma_units_increase(0, y);
    }
}

/// `a` is the smaller number. False whenever one of them is none.
pub open spec fn smaller(a: u32, b: u32) -> bool {
    !is_nan(a) && !is_nan(b) && number(a) < number(b)
}

/// The comparison is that of numbers, and what is no number is neither less nor
/// greater.
pub proof fn law_less_is_smaller(a: u32, b: u32)
    ensures
        lt(a, b) == smaller(a, b),
{
    if !is_nan(a) && !is_nan(b) {
        law_less_is_numeric(a, b);
    }
}

/// The comparison that admits equality is that of numbers, too.
pub proof fn law_at_most_is_numeric(a: u32, b: u32)
    ensures
        le(a, b) <==> !is_nan(a) && !is_nan(b) && number(a) <= number(b),
{
    law_less_is_smaller(b, a);
}

/// In the total order, what is no number comes behind all numbers, or before
/// all of them if its sign is set; and of the two zeros the negative one comes
/// first.
pub proof fn law_total_order_has_ends(a: u32, b: u32)
    ensures
        is_nan(a) && !is_nan(b) && !negative(a) ==> total_key(b) < total_key(a),
        is_nan(a) && !is_nan(b) && negative(a) ==> total_key(a) < total_key(b),
        !is_nan(a) && !is_nan(b) && total_key(a) < total_key(b) ==> number(a) <= number(b),
        total_key(0x8000_0000) < total_key(0),
{
    if !is_nan(a) && !is_nan(b) {
        law_less_is_numeric(b, a);
    }
}

/// The total order agrees with the comparison of numbers.
pub proof fn law_total_order_extends_less(a: u32, b: u32)
    ensures
        lt(a, b) ==> total_key(a) < total_key(b),
        total_key(a) == total_key(b) <==> a == b,
{
}

/// The leading 24 bits of `n`, rounded to nearest, ties to even. What is
/// rounded up to a 25th bit stays so.
pub open spec fn significand(n: nat) -> nat {
    let e = log2(n);
    if e <= 23 {
        n * pow2((23 - e) as nat)
    } else {
        let unit = pow2((e - 23) as nat);
        let (q, r) = (n / unit, n % unit);
        if 2 * r > unit || (2 * r == unit && q % 2 == 1) {
            q + 1
        } else {
            q
        }
    }
}

/// The bits of the value nearest to `n`.
pub open spec fn from_integer(n: nat) -> u32 {
    if n == 0 {
        0
    } else {
        ((126 + log2(n)) * 0x80_0000 + significand(n)) as u32
    }
}

/// The integer part of a value: zero for what is negative or no number,
/// `limit` for what is larger.
pub open spec fn to_integer(bits: u32, limit: nat) -> nat {
    let exponent = (bits / 0x80_0000) as nat;
    let sig = (0x80_0000 + bits % 0x80_0000) as nat;
    let whole = if exponent <= 150 {
        sig / pow2((150 - exponent) as nat)
    } else {
        sig * pow2((exponent - 150) as nat)
    };
    if negative(bits) || is_nan(bits) || exponent < 127 {
        0
    } else if bits == INFINITY || whole > limit {
        limit
    } else {
        whole
    }
}

/// The bits of the value nearest to `n`.
pub fn of_integer(n: u64) -> (bits: u32)
    ensures
        bits == from_integer(n as nat),
{
    if n == 0 {
        return 0;
    }
    let e: usize = floor_log2(n);
    if e <= 23 {
        let p: u64 = power_of_two(23 - e);
        proof {
            lemma_small_significand(n as nat);
        }
        ((126 + e as u64) * 0x80_0000 + n * p) as u32
    } else {
        let unit: u64 = power_of_two(e - 23);
        proof {
            lemma_large_quotient(n as nat);
            lemma_pow2_pos((e - 23) as nat);
            lemma_pow2_adds(1, (e - 24) as nat);
            lemma2_to64();
        }
        let q: u64 = n / unit;
        let r: u64 = n % unit;
        let half: u64 = unit / 2;
        let up: bool = r > half || (r == half && q % 2 == 1);
        let sig: u64 = if up {
            q + 1
        } else {
            q
        };
        ((126 + e as u64) * 0x80_0000 + sig) as u32
    }
}

proof fn lemma_small_significand(n: nat)
    requires
        n >= 1,
        log2(n) <= 23,
    ensures
        0x80_0000 <= n * pow2((23 - log2(n)) as nat) < 0x100_0000,
{
    let e = log2(n);
    let p = pow2((23 - e) as nat);
    lemma_log2(n);
    lemma_pow2_adds(e, (23 - e) as nat);
    lemma_pow2_adds(e + 1, (23 - e) as nat);
    lemma2_to64();
    lemma_pow2_pos((23 - e) as nat);
    assert(pow2(e) * p <= n * p < pow2(e + 1) * p) by (nonlinear_arith)
        requires
            pow2(e) <= n < pow2(e + 1),
            p > 0,
    ;
}

proof fn lemma_large_quotient(n: nat)
    requires
        log2(n) >= 24,
    ensures
        0x80_0000 <= n / pow2((log2(n) - 23) as nat) < 0x100_0000,
{
    let e = log2(n);
    let p = pow2((e - 23) as nat);
    lemma_log2(n);
    lemma_pow2_adds(23, (e - 23) as nat);
    lemma_pow2_adds(24, (e - 23) as nat);
    lemma2_to64();
    lemma_pow2_pos((e - 23) as nat);
    let q = n / p;
    assert(0x80_0000 <= q < 0x100_0000) by (nonlinear_arith)
        requires
            q == n / p,
            p > 0,
            0x80_0000 * p <= n < 0x100_0000 * p,
    ;
}

/// The integer part of a value, `usize::MAX` at most.
pub fn as_index(bits: u32) -> (n: usize)
    ensures
        n == to_integer(bits, usize::MAX as nat),
{
    if bits >= 0x8000_0000 {
        return 0;
    }
    let exponent: u32 = bits / 0x80_0000;
    let sig: u64 = 0x80_0000 + (bits % 0x80_0000) as u64;
    if bits > INFINITY || exponent < 127 {
        return 0;
    }
    if exponent <= 150 {
        let p: u64 = power_of_two((150 - exponent) as usize);
        proof {
            lemma_pow2_pos((150 - exponent) as nat);
        }
        let whole: u64 = sig / p;
        proof {
            assert(sig / p <= sig) by (nonlinear_arith)
                requires
                    p > 0,
            ;
        }
        return whole as usize;
    }
    proof {
        lemma2_to64();
        vstd::arithmetic::power2::lemma2_to64_rest();
    }
    if exponent > 190 {
        proof {
            let p = pow2((exponent - 150) as nat);
            if exponent > 191 {
                lemma_pow2_strictly_increases(41, (exponent - 150) as nat);
            }
            assert(sig * p >= 0x80_0000 * 0x200_0000_0000) by (nonlinear_arith)
                requires
                    sig >= 0x80_0000,
                    p >= 0x200_0000_0000,
            ;
        }
        return usize::MAX;
    }
    let p: u64 = power_of_two((exponent - 150) as usize);
    proof {
        if exponent < 190 {
            lemma_pow2_strictly_increases((exponent - 150) as nat, 40);
        }
        assert(sig * p <= 0xFF_FFFF * 0x100_0000_0000) by (nonlinear_arith)
            requires
                sig <= 0xFF_FFFF,
                p <= 0x100_0000_0000,
        ;
    }
    let whole: u64 = sig * p;
    if whole > usize::MAX as u64 {
        usize::MAX
    } else {
        whole as usize
    }
}

/// Integers up to two to the 24th are not rounded: the nearest value is the
/// integer itself.
pub proof fn law_small_integers_are_exact(n: nat, limit: nat)
    requires
        n <= 0x100_0000,
        n <= limit,
    ensures
        to_integer(from_integer(n), limit) == n,
        !negative(from_integer(n)),
        !is_nan(from_integer(n)),
{
    if n > 0 {
        let e = log2(n);
        lemma_log2(n);
        lemma2_to64();
        if e > 24 {
            lemma_pow2_strictly_increases(24, e);
        }
        if e <= 23 {
            lemma_small_significand(n);
            let k = (23 - e) as nat;
            let p = pow2(k);
            lemma_pow2_pos(k);
            let sig = n * p;
            let bits = from_integer(n);
            assert(bits == (126 + e) * 0x80_0000 + sig);
            assert(bits / 0x80_0000 == 127 + e);
            assert(0x80_0000 + bits % 0x80_0000 == sig);
            assert((n * p) / p == n) by (nonlinear_arith)
                requires
                    p > 0,
            ;
            let exponent = (bits / 0x80_0000) as nat;
            assert((150 - exponent) as nat == k);
            assert(to_integer(bits, limit) == n);
        } else {
            assert(n == 0x100_0000);
            assert(n / 2 == 0x80_0000 && n % 2 == 0);
            assert(significand(n) == 0x80_0000);
            assert(from_integer(n) == 151 * 0x80_0000);
            let bits = from_integer(n);
            let exponent = (bits / 0x80_0000) as nat;
            let sig = (0x80_0000 + bits % 0x80_0000) as nat;
            assert(exponent == 151 && sig == 0x80_0000);
            assert(pow2((exponent - 150) as nat) == 2);
            assert(sig * pow2((exponent - 150) as nat) == n) by (nonlinear_arith)
                requires
                    sig == 0x80_0000,
                    pow2((exponent - 150) as nat) == 2,
                    n == 0x100_0000,
            ;
        }
    }
}

/// How many units one is.
pub open spec fn one() -> nat {
    pow2(149)
}

/// The significand of a large integer: a half of a unit off, at most.
proof fn lemma_large_significand(n: nat)
    requires
        n >= 1,
        log2(n) > 23,
    ensures
        ({
            let unit = pow2((log2(n) - 23) as nat);
            &&& 0x80_0000 <= significand(n) <= 0x100_0000
            &&& 2 * (significand(n) * unit - n) <= unit
            &&& 2 * (n - significand(n) * unit) <= unit
            &&& unit * 0x80_0000 <= n
        }),
{
    let e = log2(n);
    let unit = pow2((e - 23) as nat);
    lemma_log2(n);
    lemma_pow2_pos((e - 23) as nat);
    lemma2_to64();
    lemma_pow2_adds((e - 23) as nat, 23);
    lemma_pow2_adds((e - 23) as nat, 24);
    let (q, r) = (n / unit, n % unit);
    vstd::arithmetic::div_mod::lemma_fundamental_div_mod(n as int, unit as int);
    assert(unit * 0x80_0000 <= n < unit * 0x100_0000);
    assert(0x80_0000 <= q < 0x100_0000) by (nonlinear_arith)
        requires
            unit > 0,
            n == unit * q + r,
            0 <= r < unit,
            unit * 0x80_0000 <= n < unit * 0x100_0000,
    ;
    assert((q + 1) * unit == unit * q + unit) by (nonlinear_arith);
    assert(q * unit == unit * q) by (nonlinear_arith);
}

/// What the bits of an integer stand for.
proof fn lemma_units_of_integer(n: nat)
    requires
        1 <= n <= u64::MAX,
    ensures
        number(from_integer(n)) == significand(n) * pow2(126 + log2(n)),
        !is_nan(from_integer(n)),
        0x80_0000 <= significand(n) <= 0x100_0000,
        log2(n) <= 63,
{
    let e = log2(n);
    lemma_log2(n);
    lemma2_to64();
    if e > 63 {
        if e > 64 {
            lemma_pow2_strictly_increases(64, e);
        }
        assert(pow2(64) <= n);
    }
    if e <= 23 {
        lemma_small_significand(n);
    } else {
        lemma_large_significand(n);
    }
    let sig = significand(n);
    let bits = from_integer(n);
    assert(bits == (126 + e) * 0x80_0000 + sig);
    if sig < 0x100_0000 {
        assert(bits / 0x80_0000 == 127 + e);
        assert(0x80_0000 + bits % 0x80_0000 == sig);
    } else {
        assert(bits == (128 + e) * 0x80_0000);
        assert(bits / 0x80_0000 == 128 + e);
        assert(bits % 0x80_0000 == 0);
        lemma_pow2_adds(1, 126 + e);
        assert(0x80_0000 * (2 * pow2(126 + e)) == 0x100_0000 * pow2(126 + e)) by (nonlinear_arith);
    }
}

/// An integer becomes the value nearest to it: no more than half of the last place
/// off, and exact as long as there are places for all of it.
pub proof fn law_integers_become_the_nearest_value(n: nat)
    requires
        n <= u64::MAX,
    ensures
        !is_nan(from_integer(n)),
        n <= 0x100_0000 ==> number(from_integer(n)) == n * one(),
        0x100_0000 * (number(from_integer(n)) - n * one()) <= n * one(),
        0x100_0000 * (n * one() - number(from_integer(n))) <= n * one(),
{
    if n == 0 {
        assert(units(0) == 0);
        assert(0 * one() == 0) by (nonlinear_arith);
    } else {
        let e = log2(n);
        let sig = significand(n);
        lemma_units_of_integer(n);
        lemma2_to64();
        lemma_log2(n);
        let x = number(from_integer(n));
        if e <= 23 {
            let p = pow2((23 - e) as nat);
            lemma_pow2_adds((23 - e) as nat, 126 + e);
            assert(p * pow2(126 + e) == one());
            assert((n * p) * pow2(126 + e) == n * (p * pow2(126 + e))) by (nonlinear_arith);
            assert(n * one() >= 0) by (nonlinear_arith);
        } else {
            let unit = pow2((e - 23) as nat);
            lemma_large_significand(n);
            lemma_pow2_adds((e - 23) as nat, 149);
            lemma_pow2_pos(149);
            assert(unit * one() == pow2(126 + e));
            assert(sig * (unit * one()) == (sig * unit) * one()) by (nonlinear_arith);
            let d = sig * unit - n;
            assert(x - n * one() == d * one()) by (nonlinear_arith)
                requires
                    x == (sig * unit) * one(),
                    d == sig * unit - n,
            ;
            assert(0x100_0000 * d <= n && -(0x100_0000 * d) <= n);
            assert(0x100_0000 * (d * one()) <= n * one() && -(0x100_0000 * (d * one())) <= n
                * one()) by (nonlinear_arith)
                requires
                    0x100_0000 * d <= n,
                    -(0x100_0000 * d) <= n,
                    one() > 0,
            ;
            if n <= 0x100_0000 {
                if e > 24 {
                    lemma_pow2_strictly_increases(24, e);
                }
                assert(e == 24 && n == 0x100_0000);
                assert(unit == 2);
                assert(n / 2 == 0x80_0000 && n % 2 == 0);
                assert(sig == 0x80_0000);
                assert(d == 0);
                assert(d * one() == 0) by (nonlinear_arith)
                    requires
                        d == 0,
                ;
            }
        }
    }
}

/// A value becomes its integer part, cut off at the limit. What is negative or no
/// number becomes zero.
pub proof fn law_values_become_their_integer_part(bits: u32, limit: nat)
    ensures
        negative(bits) || is_nan(bits) ==> to_integer(bits, limit) == 0,
        bits == INFINITY ==> to_integer(bits, limit) == limit,
        bits < INFINITY ==> to_integer(bits, limit) == (if number(bits) / one() as int > limit {
            limit as int
        } else {
            number(bits) / one() as int
        }),
{
    if bits < INFINITY {
        let exponent = (bits / 0x80_0000) as nat;
        let sig = (0x80_0000 + bits % 0x80_0000) as nat;
        lemma2_to64();
        lemma_pow2_pos(149);
        assert(number(bits) == units(bits as nat));
        if exponent < 127 {
            assert(units(bits as nat) < one()) by {
                if exponent == 0 {
                    lemma_pow2_strictly_increases(24, 149);
                } else {
                    let p = pow2((exponent - 1) as nat);
                    lemma_pow2_pos((exponent - 1) as nat);
                    lemma_pow2_adds((exponent - 1) as nat, 24);
                    assert(sig * p < 0x100_0000 * p) by (nonlinear_arith)
                        requires
                            sig < 0x100_0000,
                            p > 0,
                    ;
                    assert(p * pow2(24) == 0x100_0000 * p) by (nonlinear_arith)
                        requires
                            pow2(24) == 0x100_0000,
                    ;
                    if exponent + 23 < 149 {
                        lemma_pow2_strictly_increases((exponent + 23) as nat, 149);
                    }
                }
            }
            assert(number(bits) / one() as int == 0) by (nonlinear_arith)
                requires
                    0 <= number(bits) < one(),
            ;
        } else {
            let p = pow2((exponent - 1) as nat);
            lemma_pow2_pos((exponent - 1) as nat);
            assert(number(bits) == sig * p);
            if exponent <= 150 {
                let q = pow2((150 - exponent) as nat);
                lemma_pow2_pos((150 - exponent) as nat);
                lemma_pow2_adds((exponent - 1) as nat, (150 - exponent) as nat);
                assert(p * q == one());
                assert(sig * p == p * sig) by (nonlinear_arith);
                vstd::arithmetic::div_mod::lemma_div_multiples_vanish_quotient(
                    p as int,
                    sig as int,
                    q as int,
                );
            } else {
                let q = pow2((exponent - 150) as nat);
                lemma_pow2_adds((exponent - 150) as nat, 149);
                assert(q * one() == p);
                assert(sig * (q * one()) == (sig * q) * one()) by (nonlinear_arith);
                vstd::arithmetic::div_mod::lemma_div_by_multiple((sig * q) as int, one() as int);
            }
        }
    }
}

} // verus!
