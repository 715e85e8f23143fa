//! Numbers in double precision that are not negative, by their bit patterns.
//!
//! The patterns of such numbers are in the order of the numbers, and the pattern
//! after the last of them stands for a number without end. Every number in
//! double precision is a whole number of the smallest one, which is two to the
//! power of minus 1074, and that is what it is counted in here.
use crate::natural::Natural;
use crate::precision;
use crate::precision::nearest;
use vstd::prelude::*;

verus! {

/// The pattern of a number without end.
pub const ENDLESS: u64 = 0x7FF0_0000_0000_0000;

/// A power of two.
pub open spec fn pow2(k: int) -> int
    decreases k,
{
    if k <= 0 {
        1
    } else {
        2 * pow2(k - 1)
    }
}

/// How often `d` is doubled before `n` has at most 53 binary digits over it.
pub open spec fn steps(n: int, d: int) -> int
    decreases n - d,
{
    if d <= 0 || n < 0x20_0000_0000_0000 * d {
        0
    } else {
        1 + steps(n, 2 * d)
    }
}

/// The place of the number in double precision that is nearest to `n` over `d`
/// smallest ones, of two as near the even one. The places of numbers are their
/// patterns: those below two to the 53rd are as far apart as the smallest, and
/// with each doubling so are the next two to the 52nd.
pub open spec fn place(n: int, d: int) -> int {
    0x10_0000_0000_0000 * steps(n, d) + nearest(n, d * pow2(steps(n, d)))
}

/// The pattern nearest to `n` over `d` smallest numbers.
pub open spec fn bits_of(n: int, d: int) -> int {
    if place(n, d) < ENDLESS {
        place(n, d)
    } else {
        ENDLESS as int
    }
}

/// How many of the smallest number a pattern stands for.
pub open spec fn units(bits: int) -> int {
    if bits < 0x20_0000_0000_0000 {
        bits
    } else {
        (0x10_0000_0000_0000 + bits % 0x10_0000_0000_0000) * pow2(bits / 0x10_0000_0000_0000 - 1)
    }
}

/// The smallest numbers in one.
pub open spec fn one() -> int {
    pow2(1074)
}

/// The number in double precision nearest to a fraction.
pub open spec fn quotient(p: int, q: int) -> int {
    bits_of(p * one(), q)
}

/// One whole number over another, each brought to double precision first.
pub open spec fn ratio(p: int, q: int) -> int {
    quotient(precision::double(p), precision::double(q))
}

/// A number in double precision times a whole number.
pub open spec fn product(bits: int, factor: int) -> int {
    bits_of(units(bits) * factor, 1)
}

/// The whole number nearest to a number in double precision, halves up.
pub open spec fn rounded(bits: int) -> int {
    (2 * units(bits) + one()) / (2 * one())
}

/// A number in double precision in parts of `scale` to one, to the nearest part
/// and of two as near to the even one.
pub open spec fn in_parts(bits: int, scale: int) -> int {
    nearest(units(bits) * scale, one())
}

/// How far apart two numbers in double precision are, in double precision.
pub open spec fn distance(a: int, b: int) -> int {
    bits_of(
        if units(a) >= units(b) {
            units(a) - units(b)
        } else {
            units(b) - units(a)
        },
        1,
    )
}

/// How many times the larger of two numbers in double precision is the smaller.
pub open spec fn apart(a: int, b: int) -> int {
    let (most, least) = if a >= b {
        (a, b)
    } else {
        (b, a)
    };
    if least == 0 || most == ENDLESS {
        ENDLESS as int
    } else {
        bits_of(units(most) * one(), units(least))
    }
}

/// The number of hundredths, a multiple of `scale`, that is nearest to a number
/// in double precision, halves up.
pub open spec fn in_hundredths(bits: int, scale: int) -> int {
    (200 * units(bits) + scale * one()) / (2 * scale * one()) * scale
}

/// The number of hundredths with the fewest digits that is read as a number in
/// double precision, at most `k` noughts at its end counted, and the nearest to
/// it of those with as few.
pub open spec fn shortest(bits: int, k: int) -> int
    decreases k,
{
    let size = in_hundredths(bits, pow10(k));
    if k <= 0 || quotient(size, 100) == bits {
        size
    } else {
        shortest(bits, k - 1)
    }
}

pub proof fn lemma_pow2(k: int)
    ensures
        pow2(k) >= 1,
        0 <= k ==> pow2(k + 1) == 2 * pow2(k),
    decreases k,
{
    if k > 0 {
        lemma_pow2(k - 1);
    }
}

pub proof fn lemma_pow2_add(a: int, b: int)
    requires
        0 <= a,
        0 <= b,
    ensures
        pow2(a + b) == pow2(a) * pow2(b),
    decreases a,
{
    if a > 0 {
        lemma_pow2_add(a - 1, b);
        let (p, q) = (pow2(a - 1), pow2(b));
        assert((2 * p) * q == 2 * (p * q)) by (nonlinear_arith);
    } else {
        assert(1 * pow2(b) == pow2(b));
    }
}

pub proof fn lemma_pow2_grows(a: int, b: int)
    requires
        a <= b,
    ensures
        pow2(a) <= pow2(b),
    decreases b - a,
{
    if a < b {
        lemma_pow2_grows(a, b - 1);
        lemma_pow2(b - 1);
    }
}

pub proof fn lemma_powers()
    ensures
        pow2(10) == 0x400,
        pow2(20) == 0x10_0000,
        pow2(40) == 0x100_0000_0000,
        pow2(52) == 0x10_0000_0000_0000,
        pow2(53) == 0x20_0000_0000_0000,
        pow2(64) == 0x1_0000_0000_0000_0000,
{
    reveal_with_fuel(pow2, 11);
    assert(pow2(10) == 0x400);
    lemma_power_product(10, 10, 0x400, 0x400);
    lemma_power_product(20, 20, 0x10_0000, 0x10_0000);
    lemma_power_product(40, 10, 0x100_0000_0000, 0x400);
    lemma_pow2(50);
    lemma_pow2(51);
    lemma_pow2(52);
    lemma_power_product(53, 10, 0x20_0000_0000_0000, 0x400);
    lemma_pow2(63);
}

proof fn lemma_power_product(a: int, b: int, p: int, q: int)
    requires
        0 <= a,
        0 <= b,
        pow2(a) == p,
        pow2(b) == q,
    ensures
        pow2(a + b) == p * q,
{
    lemma_pow2_add(a, b);
}

/// A fraction keeps its whole part and its rest in proportion when both sides of
/// it are multiplied.
pub proof fn lemma_div_scale(n: int, d: int, c: int)
    requires
        0 <= n,
        0 < d,
        0 < c,
    ensures
        (n * c) / (d * c) == n / d,
        (n * c) % (d * c) == (n % d) * c,
        0 < d * c,
{
    let (q, r) = (n / d, n % d);
    vstd::arithmetic::div_mod::lemma_fundamental_div_mod(n, d);
    vstd::arithmetic::div_mod::lemma_mod_bound(n, d);
    assert(0 < d * c && 0 <= r * c < d * c && n * c == q * (d * c) + r * c) by (nonlinear_arith)
        requires
            n == d * q + r,
            0 <= r < d,
            0 < c,
            0 < d,
    ;
    vstd::arithmetic::div_mod::lemma_fundamental_div_mod_converse(n * c, d * c, q, r * c);
}

pub proof fn lemma_nearest_scale(n: int, d: int, c: int)
    requires
        0 <= n,
        0 < d,
        0 < c,
    ensures
        nearest(n * c, d * c) == nearest(n, d),
{
    lemma_div_scale(n, d, c);
    let r = n % d;
    assert((2 * (r * c) > d * c <==> 2 * r > d) && (2 * (r * c) == d * c <==> 2 * r == d)) by (nonlinear_arith)
        requires
            0 < c,
    ;
}

proof fn lemma_steps(n: int, d: int)
    requires
        0 < d,
    ensures
        0 <= steps(n, d),
    decreases n - d,
{
    if n >= 0x20_0000_0000_0000 * d {
        lemma_steps(n, 2 * d);
    }
}

proof fn lemma_steps_scale(n: int, d: int, c: int)
    requires
        0 <= n,
        0 < d,
        0 < c,
    ensures
        steps(n * c, d * c) == steps(n, d),
    decreases n - d,
{
    assert(0 < d * c && (n * c < 0x20_0000_0000_0000 * (d * c) <==> n < 0x20_0000_0000_0000 * d)) by (nonlinear_arith)
        requires
            0 < c,
            0 < d,
    ;
    if n >= 0x20_0000_0000_0000 * d {
        lemma_steps_scale(n, 2 * d, c);
        assert((2 * d) * c == 2 * (d * c)) by (nonlinear_arith);
    }
}

/// Only the fraction matters.
pub proof fn lemma_place_scale(n: int, d: int, c: int)
    requires
        0 <= n,
        0 < d,
        0 < c,
    ensures
        place(n * c, d * c) == place(n, d),
{
    lemma_steps_scale(n, d, c);
    let p = pow2(steps(n, d));
    lemma_pow2(steps(n, d));
    assert(0 < d * p && (d * c) * p == (d * p) * c) by (nonlinear_arith)
        requires
            0 < d,
            0 < p,
    ;
    lemma_nearest_scale(n, d * p, c);
}

/// Twice a number is as many patterns on as there are to a doubling.
proof fn lemma_place_doubled(n: int, d: int)
    requires
        0 < d,
        0x10_0000_0000_0000 * d <= n,
    ensures
        place(2 * n, d) == place(n, d) + 0x10_0000_0000_0000,
{
    let k = steps(n, d);
    lemma_steps(n, d);
    assert(steps(2 * n, d) == 1 + steps(2 * n, 2 * d));
    lemma_steps_scale(n, d, 2);
    lemma_pow2(k);
    let p = pow2(k);
    assert(d * (2 * p) == (d * p) * 2 && 0 < d * p) by (nonlinear_arith)
        requires
            0 < d,
            0 < p,
    ;
    lemma_nearest_scale(n, d * p, 2);
}

proof fn lemma_place_shifted(n: int, d: int, e: int)
    requires
        0 < d,
        0 <= e,
        0x10_0000_0000_0000 * d <= n,
    ensures
        place(n * pow2(e), d) == place(n, d) + e * 0x10_0000_0000_0000,
        0x10_0000_0000_0000 * d <= n * pow2(e),
    decreases e,
{
    if e > 0 {
        lemma_place_shifted(n, d, e - 1);
        let before = n * pow2(e - 1);
        assert(n * (2 * pow2(e - 1)) == 2 * before) by (nonlinear_arith)
            requires
                before == n * pow2(e - 1),
        ;
        lemma_place_doubled(before, d);
    } else {
        assert(n * 1 == n);
    }
}

/// Where nothing has to be doubled, a pattern is the nearest whole number.
proof fn lemma_place_small(n: int, d: int)
    requires
        0 < d,
        n < 0x20_0000_0000_0000 * d,
    ensures
        place(n, d) == nearest(n, d),
{
    assert(d * 1 == d);
}

/// The pattern nearest to a fraction times a power of two.
pub fn packed(n: u128, d: u128, e: u64) -> (bits: u64)
    requires
        0 < d <= 0x1_0000_0000_0000_0000,
        n < 0x100_0000_0000_0000_0000_0000_0000_0000,
        e <= 0x2000,
    ensures
        bits == bits_of(n * pow2(e as int), d as int),
        bits <= ENDLESS,
{
    let ghost whole = place(n * pow2(e as int), d as int);
    let mut n: u128 = n;
    let mut d: u128 = d;
    let mut e: u128 = e as u128;
    while e > 0 && n < 0x10_0000_0000_0000 * d
        invariant
            0 < d <= 0x1_0000_0000_0000_0000,
            n < 0x100_0000_0000_0000_0000_0000_0000_0000,
            e <= 0x2000,
            whole == place(n * pow2(e as int), d as int),
        decreases e,
    {
        proof {
            lemma_pow2(e - 1);
            let p = pow2(e - 1);
            assert(n * (2 * p) == (2 * n) * p) by (nonlinear_arith);
        }
        n = 2 * n;
        e = e - 1;
    }
    let ghost start = d;
    while n >= 0x20_0000_0000_0000 * d
        invariant
            0 < start <= d <= 0x200_0000_0000_0000_0000,
            n < 0x100_0000_0000_0000_0000_0000_0000_0000,
            e <= 0x2000 + d,
            whole == place(n * pow2(e as int), d as int),
            e == 0 || n >= 0x10_0000_0000_0000 * d,
        decreases n + 1 - d,
    {
        proof {
            let p = pow2(e as int);
            lemma_pow2(e as int);
            assert(0 <= n * p && n * (2 * p) == (n * p) * 2) by (nonlinear_arith)
                requires
                    0 <= n,
                    0 < p,
            ;
            lemma_place_scale(n * p, d as int, 2);
        }
        d = 2 * d;
        e = e + 1;
    }
    proof {
        precision::lemma_nearest(n as int, d as int);
        lemma_place_small(n as int, d as int);
        if e == 0 {
            assert(n * 1 == n);
        } else {
            lemma_place_shifted(n as int, d as int, e as int);
            lemma_nearest_at_least(n as int, d as int, 0x10_0000_0000_0000);
        }
        lemma_nearest_at_most(n as int, d as int, 0x20_0000_0000_0000);
    }
    if e >= 0x7FF {
        return ENDLESS;
    }
    let near: u128 = precision::nearest_of(n, d);
    let bits: u128 = 0x10_0000_0000_0000 * e + near;
    if bits < ENDLESS as u128 {
        bits as u64
    } else {
        ENDLESS
    }
}

proof fn lemma_nearest_at_least(n: int, d: int, least: int)
    requires
        0 < d,
        least * d <= n,
        0 <= least,
    ensures
        least <= nearest(n, d),
{
    let q = n / d;
    assert(q >= least) by (nonlinear_arith)
        requires
            q == n / d,
            least * d <= n,
            0 < d,
    ;
}

proof fn lemma_nearest_at_most(n: int, d: int, most: int)
    requires
        0 < d,
        0 <= n < most * d,
    ensures
        nearest(n, d) <= most,
{
    let q = n / d;
    assert(q < most) by (nonlinear_arith)
        requires
            q == n / d,
            n < most * d,
            0 < d,
            0 <= n,
    ;
}

/// The digits of a pattern, and how often they are doubled.
pub fn parts(bits: u64) -> (parts: (u64, u64))
    requires
        bits <= ENDLESS,
    ensures
        units(bits as int) == parts.0 * pow2(parts.1 as int),
        parts.0 < 0x20_0000_0000_0000,
        parts.1 <= 0x7FE,
        parts.1 > 0 ==> parts.0 >= 0x10_0000_0000_0000,
        parts.0 == 0 <==> bits == 0,
        bits < 0x20_0000_0000_0000 ==> parts == (bits, 0u64),
        bits >= 0x20_0000_0000_0000 ==> parts.0 == 0x10_0000_0000_0000 + bits % 0x10_0000_0000_0000 && parts.1 == bits
            / 0x10_0000_0000_0000 - 1,
{
    if bits < 0x20_0000_0000_0000 {
        assert(bits * 1 == bits);
        (bits, 0)
    } else {
        (0x10_0000_0000_0000 + bits % 0x10_0000_0000_0000, bits / 0x10_0000_0000_0000 - 1)
    }
}

/// One whole number over another, in double precision.
pub fn ratio_of(p: u64, q: u64) -> (bits: u64)
    requires
        0 < q,
    ensures
        bits == ratio(p as int, q as int),
        bits <= ENDLESS,
{
    proof {
        precision::lemma_double(p as int);
        precision::lemma_double_bounds(p as int);
        precision::lemma_double_bounds(q as int);
    }
    let over: u128 = precision::double_of(p as u128);
    let under: u128 = precision::double_of(q as u128);
    packed(over, under, 1074)
}

/// The number in double precision nearest to a fraction.
pub fn quotient_of(p: u64, q: u64) -> (bits: u64)
    requires
        0 < q,
    ensures
        bits == quotient(p as int, q as int),
        bits <= ENDLESS,
{
    packed(p as u128, q as u128, 1074)
}

/// A number in double precision times a whole number.
pub fn product_of(bits: u64, factor: u32) -> (product: u64)
    requires
        bits <= ENDLESS,
    ensures
        product == self::product(bits as int, factor as int),
        product <= ENDLESS,
{
    let (m, e): (u64, u64) = parts(bits);
    let (a, b): (u128, u128) = (m as u128, factor as u128);
    assert(0 <= a * b <= 0x20_0000_0000_0000 * 0x1_0000_0000) by (nonlinear_arith)
        requires
            0 <= a <= 0x20_0000_0000_0000,
            0 <= b <= 0x1_0000_0000,
    ;
    proof {
        let p = pow2(e as int);
        assert((a * b) * p == (a * p) * b) by (nonlinear_arith);
    }
    packed(a * b, 1, e)
}

/// A power of two.
pub fn power(k: u64) -> (power: u128)
    requires
        k <= 120,
    ensures
        power == pow2(k as int),
        0 < power,
{
    let mut power: u128 = 1;
    let mut i: u64 = 0;
    while i < k
        invariant
            i <= k <= 120,
            power == pow2(i as int),
            1 <= power,
        decreases k - i,
    {
        proof {
            lemma_pow2(i as int);
            lemma_pow2_grows(i + 1, 120);
            lemma_power_of_120();
        }
        power = 2 * power;
        i = i + 1;
    }
    power
}

proof fn lemma_power_of_120()
    ensures
        pow2(120) == 0x100_0000_0000_0000_0000_0000_0000_0000,
{
    lemma_powers();
    lemma_power_of_100();
    lemma_power_product(100, 20, 0x10_0000_0000_0000_0000_0000_0000, 0x10_0000);
}

pub proof fn lemma_power_of_100()
    ensures
        pow2(100) == 0x10_0000_0000_0000_0000_0000_0000,
{
    lemma_powers();
    lemma_power_product(40, 40, 0x100_0000_0000, 0x100_0000_0000);
    lemma_power_product(80, 20, 0x1_0000_0000_0000_0000_0000, 0x10_0000);
}

/// What is not negative rounds to no negative number.
pub proof fn lemma_rounded(bits: int)
    requires
        0 <= bits,
    ensures
        0 <= rounded(bits),
{
    lemma_pow2(1074);
    lemma_pow2(bits / 0x10_0000_0000_0000 - 1);
    let (m, p) = (0x10_0000_0000_0000 + bits % 0x10_0000_0000_0000, pow2(bits / 0x10_0000_0000_0000 - 1));
    assert(0 <= m * p) by (nonlinear_arith)
        requires
            0 <= m,
            0 < p,
    ;
    vstd::arithmetic::div_mod::lemma_div_pos_is_pos(2 * units(bits) + one(), 2 * one());
}

/// What is not negative has no negative pattern.
pub proof fn lemma_bits(n: int, d: int)
    requires
        0 <= n,
        0 < d,
    ensures
        0 <= bits_of(n, d),
{
    lemma_steps(n, d);
    let p = pow2(steps(n, d));
    lemma_pow2(steps(n, d));
    assert(0 < d * p) by (nonlinear_arith)
        requires
            0 < d,
            0 < p,
    ;
    precision::lemma_nearest(n, d * p);
}

/// What is not negative has no negative multiple.
pub proof fn lemma_product(bits: int, factor: int)
    requires
        0 <= factor,
    ensures
        0 <= bits ==> 0 <= product(bits, factor),
{
    if 0 <= bits {
        lemma_pow2(bits / 0x10_0000_0000_0000 - 1);
        let (m, p) = (0x10_0000_0000_0000 + bits % 0x10_0000_0000_0000, pow2(bits / 0x10_0000_0000_0000 - 1));
        assert(0 <= m * p) by (nonlinear_arith)
            requires
                0 <= m,
                0 < p,
        ;
        let u = units(bits);
        assert(0 <= u * factor) by (nonlinear_arith)
            requires
                0 <= u,
                0 <= factor,
        ;
        lemma_bits(u * factor, 1);
    }
}

/// One whole number over another is not negative.
pub proof fn lemma_ratio(p: int, q: int)
    requires
        0 <= p,
        0 < q < 0x1_0000_0000_0000_0000,
    ensures
        0 <= ratio(p, q),
{
    precision::lemma_double(p);
    precision::lemma_double_bounds(q);
    lemma_pow2(1074);
    let (n, u) = (precision::double(p), one());
    assert(0 <= n * u) by (nonlinear_arith)
        requires
            0 <= n,
            0 < u,
    ;
    lemma_bits(n * u, precision::double(q));
}

/// One machine word over another is at most two to the 64th.
pub proof fn lemma_ratio_bound(p: int, q: int)
    requires
        0 <= p < 0x1_0000_0000_0000_0000,
        0 < q < 0x1_0000_0000_0000_0000,
    ensures
        0 <= ratio(p, q) <= 0x43F0_0000_0000_0000,
{
    lemma_ratio(p, q);
    precision::lemma_double(p);
    precision::lemma_double_bounds(p);
    precision::lemma_double_bounds(q);
    lemma_pow2(1074);
    lemma_powers();
    lemma_pow2_add(64, 1074);
    lemma_pow2_add(52, 1086);
    let (n, d, u) = (precision::double(p), precision::double(q), one());
    assert(0 <= n * u <= pow2(64) * u) by (nonlinear_arith)
        requires
            0 <= n <= pow2(64),
            0 < u,
    ;
    let top = pow2(64) * u;
    assert(top <= top * d) by (nonlinear_arith)
        requires
            0 <= top,
            1 <= d,
    ;
    lemma_place_at_most(n * u, d, top);
    lemma_place_shifted(0x10_0000_0000_0000, 1, 1086);
    lemma_place_small(0x10_0000_0000_0000, 1);
    precision::lemma_nearest(0x10_0000_0000_0000, 1);
    lemma_place_scale(top, 1, 1);
    assert(pow2(52) * pow2(1086) == 0x10_0000_0000_0000 * pow2(1086));
    assert(place(top, 1) == 0x43F0_0000_0000_0000);
}

/// The pattern of a power of two.
proof fn lemma_power_place(k: int)
    requires
        52 <= k,
    ensures
        place(pow2(k), 1) == (k - 51) * 0x10_0000_0000_0000,
{
    lemma_powers();
    lemma_pow2_add(52, k - 52);
    lemma_place_shifted(0x10_0000_0000_0000, 1, k - 52);
    lemma_place_small(0x10_0000_0000_0000, 1);
    precision::lemma_nearest(0x10_0000_0000_0000, 1);
}

/// So many hundredths of one are nothing, or no less than a 128th and no more
/// than two to the 58th.
pub proof fn lemma_hundredths(p: int)
    requires
        0 <= p < 0x1_0000_0000_0000_0000,
    ensures
        p == 0 ==> quotient(p, 100) == 0,
        p > 0 ==> 0x3F80_0000_0000_0000 <= quotient(p, 100) <= 0x4390_0000_0000_0000,
{
    lemma_powers();
    lemma_pow2(1074);
    let u = one();
    if p == 0 {
        assert(0 * u == 0);
        lemma_place_small(0, 100);
        lemma_nothing_near(0, 100);
    } else {
        lemma_power_place(1067);
        lemma_pow2_add(1067, 7);
        reveal_with_fuel(pow2, 8);
        assert(pow2(7) == 128);
        let low = pow2(1067);
        lemma_pow2(1067);
        assert(u == low * 128);
        lemma_place_scale(low, 1, 100);
        assert(low * 100 <= p * u) by (nonlinear_arith)
            requires
                p >= 1,
                u == low * 128,
                low >= 1,
        ;
        lemma_place_grows(low * 100, p * u, 100);
        lemma_power_place(1132);
        lemma_pow2_add(58, 1074);
        lemma_pow2_add(52, 6);
        assert(pow2(6) == 64);
        let top = pow2(1132);
        assert(pow2(58) == 0x400_0000_0000_0000);
        assert(p * u <= top * 100 && 0 <= top) by (nonlinear_arith)
            requires
                p < 0x1_0000_0000_0000_0000,
                u >= 1,
                top == 0x400_0000_0000_0000 * u,
        ;
        lemma_place_at_most(p * u, 100, top);
    }
}

/// What is at most so many times as large comes at most as late.
proof fn lemma_place_at_most(n: int, d: int, most: int)
    requires
        0 <= n <= most * d,
        0 < d,
        0 <= most,
    ensures
        place(n, d) <= place(most, 1),
{
    lemma_place_scale(most, 1, d);
    assert(1 * d == d);
    lemma_place_grows(n, most * d, d);
}

/// What is larger does not come earlier.
proof fn lemma_place_grows(n: int, m: int, d: int)
    requires
        0 <= n <= m,
        0 < d,
    ensures
        place(n, d) <= place(m, d),
    decreases m - d,
{
    if m < 0x20_0000_0000_0000 * d {
        lemma_place_small(n, d);
        lemma_place_small(m, d);
        lemma_nearest_grows(n, m, d);
    } else if n < 0x20_0000_0000_0000 * d {
        lemma_place_small(n, d);
        lemma_nearest_at_most(n, d, 0x20_0000_0000_0000);
        lemma_place_at_least(m, d);
    } else {
        lemma_place_grows(n, m, 2 * d);
        lemma_place_unfolded(n, d);
        lemma_place_unfolded(m, d);
    }
}

/// A larger fraction has no smaller pattern.
pub proof fn lemma_quotient_grows(p: int, r: int, q: int)
    requires
        0 <= p <= r,
        0 < q,
    ensures
        0 <= quotient(p, q) <= quotient(r, q),
{
    lemma_pow2(1074);
    let u = one();
    assert(0 <= p * u <= r * u) by (nonlinear_arith)
        requires
            0 <= p <= r,
            0 < u,
    ;
    lemma_place_grows(p * u, r * u, q);
    lemma_bits(p * u, q);
}

/// Patterns come in the order of what they stand for.
pub proof fn lemma_units_grow(a: int, b: int)
    requires
        0 <= a <= b,
    ensures
        0 <= units(a) <= units(b),
{
    let step: int = 0x10_0000_0000_0000;
    let (m, e, n, f) = (step + a % step, a / step - 1, step + b % step, b / step - 1);
    lemma_pow2(e);
    lemma_pow2(f);
    let (p, q) = (pow2(e), pow2(f));
    if 2 * step <= b {
        lemma_pow2_grows(1, f);
        lemma_pow2(1);
        assert(n * q >= step * 2) by (nonlinear_arith)
            requires
                n >= step,
                q >= 2,
                step > 0,
        ;
    }
    if 2 * step <= a {
        assert(0 <= m * p) by (nonlinear_arith)
            requires
                0 <= m,
                0 < p,
        ;
        if e == f {
            assert(m * p <= n * p) by (nonlinear_arith)
                requires
                    m <= n,
                    0 < p,
            ;
        } else {
            lemma_pow2_grows(e + 1, f);
            lemma_pow2(e + 1);
            assert(m * p <= n * q) by (nonlinear_arith)
                requires
                    0 <= m <= 2 * step,
                    step <= n,
                    0 < p,
                    2 * p <= q,
                    step > 0,
            ;
        }
    }
}

/// What lies between two numbers is no further from either than they are apart.
pub proof fn lemma_distance_grows(a: int, b: int, c: int)
    requires
        0 <= a <= b <= c,
    ensures
        distance(a, b) <= distance(a, c),
        distance(c, b) <= distance(c, a),
        distance(a, a) == 0,
{
    lemma_units_grow(a, b);
    lemma_units_grow(b, c);
    lemma_place_grows(units(b) - units(a), units(c) - units(a), 1);
    lemma_place_grows(units(c) - units(b), units(c) - units(a), 1);
    lemma_place_small(0, 1);
    lemma_nothing_near(0, 1);
}

proof fn lemma_place_unfolded(n: int, d: int)
    requires
        0 < d,
        0x20_0000_0000_0000 * d <= n,
    ensures
        place(n, d) == place(n, 2 * d) + 0x10_0000_0000_0000,
{
    let k = steps(n, 2 * d);
    lemma_steps(n, 2 * d);
    lemma_pow2(k);
    assert(steps(n, d) == 1 + k);
    let p = pow2(k);
    assert(d * (2 * p) == (2 * d) * p) by (nonlinear_arith);
}

proof fn lemma_place_at_least(m: int, d: int)
    requires
        0 < d,
        0x20_0000_0000_0000 * d <= m,
    ensures
        place(m, d) >= 0x20_0000_0000_0000,
    decreases m - d,
{
    lemma_place_unfolded(m, d);
    if m >= 0x20_0000_0000_0000 * (2 * d) {
        lemma_place_at_least(m, 2 * d);
    } else {
        lemma_place_small(m, 2 * d);
        lemma_nearest_at_least(m, 2 * d, 0x10_0000_0000_0000);
    }
}

proof fn lemma_nearest_grows(n: int, m: int, d: int)
    requires
        0 <= n <= m,
        0 < d,
    ensures
        nearest(n, d) <= nearest(m, d),
{
    let (q, r, s, t) = (n / d, n % d, m / d, m % d);
    vstd::arithmetic::div_mod::lemma_fundamental_div_mod(n, d);
    vstd::arithmetic::div_mod::lemma_fundamental_div_mod(m, d);
    vstd::arithmetic::div_mod::lemma_mod_bound(n, d);
    vstd::arithmetic::div_mod::lemma_mod_bound(m, d);
    vstd::arithmetic::div_mod::lemma_div_is_ordered(n, m, d);
    if q == s {
        assert(d * q == d * s);
        assert(r <= t);
    }
}

/// A number in double precision in parts of `scale` to one, to the nearest, as
/// far as it can be counted.
pub fn parts_of(bits: u64, scale: u32) -> (count: u128)
    requires
        bits <= 0x43F0_0000_0000_0000,
    ensures
        count == in_parts(bits as int, scale as int),
        count <= 0x1_0000_0000_0000_0000 * scale,
{
    let (m, e): (u64, u64) = parts(bits);
    let (a, b): (u128, u128) = (m as u128, scale as u128);
    assert(0 <= a * b <= 0x20_0000_0000_0000 * 0x1_0000_0000) by (nonlinear_arith)
        requires
            0 <= a <= 0x20_0000_0000_0000,
            0 <= b <= 0x1_0000_0000,
    ;
    let n: u128 = a * b;
    proof {
        let p = pow2(e as int);
        assert((a * p) * b == n * p) by (nonlinear_arith)
            requires
                n == a * b,
        ;
        lemma_powers();
        lemma_pow2(e as int);
        lemma_pow2(1074);
    }
    if e >= 1074 {
        let more: u64 = e - 1074;
        proof {
            lemma_pow2_add(more as int, 1074);
            lemma_pow2(more as int);
            lemma_limit(bits);
            lemma_pow2_grows(more as int, 12);
            lemma_small_powers();
            let (p, u) = (pow2(more as int), one());
            assert(n * (p * u) == (n * p) * u && 0 <= n * p) by (nonlinear_arith)
                requires
                    0 <= n,
                    0 < p,
            ;
            lemma_nearest_scale(n * p, 1, u);
            assert(1 * u == u);
            precision::lemma_nearest(n * p, 1);
            assert(0 <= n * p <= 0x1_0000_0000_0000_0000 * b) by (nonlinear_arith)
                requires
                    n == a * b,
                    a * p <= 0x1_0000_0000_0000_0000,
                    0 <= a,
                    0 <= b,
                    0 < p,
            ;
            assert(0x1_0000_0000_0000_0000 * b <= 0x1_0000_0000_0000_0000 * 0x1_0000_0000) by (nonlinear_arith)
                requires
                    b <= 0x1_0000_0000,
            ;
        }
        n * power(more)
    } else {
        let less: u64 = 1074 - e;
        proof {
            lemma_pow2_add(less as int, e as int);
            lemma_pow2(less as int);
            lemma_nearest_scale(n as int, pow2(less as int), pow2(e as int));
            precision::lemma_nearest(n as int, pow2(less as int));
            assert(pow2(less as int) * nearest(n as int, pow2(less as int)) <= n + pow2(less as int));
        }
        if less > 100 {
            proof {
                lemma_pow2_grows(100, less as int);
                lemma_power_of_100();
                lemma_nothing_near(n as int, pow2(less as int));
            }
            0
        } else {
            let d: u128 = power(less);
            proof {
                lemma_pow2_grows(less as int, 100);
                lemma_power_of_100();
                lemma_near_bound(a as int, b as int, d as int);
            }
            precision::nearest_of(n, d)
        }
    }
}

proof fn lemma_small_powers()
    ensures
        pow2(12) == 0x1000,
{
    lemma_powers();
    lemma_pow2(10);
    lemma_pow2(11);
}

/// Less than half is nearest to nothing.
pub proof fn lemma_nothing_near(n: int, d: int)
    requires
        0 <= n,
        2 * n < d,
    ensures
        nearest(n, d) == 0,
{
    vstd::arithmetic::div_mod::lemma_small_mod(n as nat, d as nat);
    vstd::arithmetic::div_mod::lemma_basic_div(n, d);
}

proof fn lemma_near_bound(a: int, b: int, d: int)
    requires
        0 <= a < 0x20_0000_0000_0000,
        0 <= b,
        1 <= d,
    ensures
        0 <= nearest(a * b, d) <= 0x1_0000_0000_0000_0000 * b,
{
    assert(0 <= a * b <= 0x20_0000_0000_0000 * b) by (nonlinear_arith)
        requires
            0 <= a < 0x20_0000_0000_0000,
            0 <= b,
    ;
    precision::lemma_nearest(a * b, d);
    let near = nearest(a * b, d);
    let q = (a * b) / d;
    assert(q <= a * b) by (nonlinear_arith)
        requires
            q == (a * b) / d,
            1 <= d,
            0 <= a * b,
    ;
    if b == 0 {
        assert(a * 0 == 0);
        lemma_nothing_near(0, d);
    }
}

/// What a pattern up to that of two to the 64th counts.
proof fn lemma_limit(bits: u64)
    requires
        0x20_0000_0000_0000 <= bits <= 0x43F0_0000_0000_0000,
    ensures
        ({
            let e = bits as int / 0x10_0000_0000_0000 - 1;
            let m = 0x10_0000_0000_0000 + bits as int % 0x10_0000_0000_0000;
            &&& e <= 1086
            &&& e >= 1074 ==> m * pow2(e - 1074) <= 0x1_0000_0000_0000_0000
        }),
{
    let e = bits as int / 0x10_0000_0000_0000 - 1;
    let m = 0x10_0000_0000_0000 + bits as int % 0x10_0000_0000_0000;
    lemma_small_powers();
    lemma_pow2(11);
    if e >= 1074 {
        if e == 1086 {
            assert(m == 0x10_0000_0000_0000);
        } else {
            assert(pow2(12) == 2 * pow2(11));
            lemma_pow2(e - 1074);
            lemma_pow2_grows(e - 1074, 11);
            let p = pow2(e - 1074);
            assert(m * p <= 0x20_0000_0000_0000 * 0x800) by (nonlinear_arith)
                requires
                    0 <= m <= 0x20_0000_0000_0000,
                    0 <= p <= 0x800,
            ;
        }
    }
}

/// The whole number nearest to a number in double precision, halves up, as far
/// as it can be counted.
pub fn whole_of(bits: u64, most: u64) -> (whole: u64)
    requires
        bits <= ENDLESS,
    ensures
        whole == (if rounded(bits as int) < most {
            rounded(bits as int)
        } else {
            most as int
        }),
{
    let (m, e): (u64, u64) = parts(bits);
    proof {
        lemma_powers();
        lemma_pow2(e as int);
        lemma_pow2(1074);
    }
    if e >= 1074 {
        let more: u64 = e - 1074;
        let ghost (p, u) = (pow2(more as int), one());
        proof {
            lemma_pow2_add(more as int, 1074);
            lemma_pow2(more as int);
            assert(m * (p * u) == (m * p) * u && 0 <= m * p) by (nonlinear_arith)
                requires
                    0 <= m,
                    0 < p,
            ;
            assert(2 * ((m * p) * u) + u == (2 * (m * p) + 1) * u) by (nonlinear_arith);
            lemma_div_scale(2 * (m * p) + 1, 2, u);
            assert(rounded(bits as int) == m * p);
        }
        if more > 40 {
            proof {
                lemma_pow2_grows(40, more as int);
                assert(m * p >= 0x10_0000_0000_0000 * 0x100_0000_0000) by (nonlinear_arith)
                    requires
                        m >= 0x10_0000_0000_0000,
                        p >= 0x100_0000_0000,
                ;
            }
            return most;
        }
        proof {
            lemma_pow2_grows(more as int, 40);
            assert(m * p <= 0x20_0000_0000_0000 * 0x100_0000_0000) by (nonlinear_arith)
                requires
                    0 <= m <= 0x20_0000_0000_0000,
                    0 <= p <= 0x100_0000_0000,
            ;
        }
        let whole: u128 = m as u128 * power(more);
        if whole < most as u128 {
            whole as u64
        } else {
            most
        }
    } else {
        let less: u64 = 1074 - e;
        let ghost (p, q) = (pow2(less as int), pow2(e as int));
        proof {
            lemma_pow2_add(less as int, e as int);
            lemma_pow2(less as int);
            assert(2 * (m * q) + p * q == (2 * m + p) * q && 2 * (p * q) == (2 * p) * q) by (nonlinear_arith);
            lemma_div_scale(2 * m + p, 2 * p, q);
            assert(rounded(bits as int) == (2 * m + p) / (2 * p));
        }
        if less > 64 {
            proof {
                lemma_pow2_grows(64, less as int);
                vstd::arithmetic::div_mod::lemma_basic_div(2 * m + p, 2 * p);
            }
            return 0;
        }
        let d: u128 = power(less);
        proof {
            lemma_pow2_grows(less as int, 64);
        }
        let whole: u128 = (2 * m as u128 + d) / (2 * d);
        if whole < most as u128 {
            whole as u64
        } else {
            most
        }
    }
}

/// How far apart two numbers in double precision are, where neither is so small
/// or so large that their digits are out of each other's reach.
pub fn distance_of(a: u64, b: u64) -> (distance: u64)
    requires
        a == 0 || 0x3F80_0000_0000_0000 <= a <= 0x4390_0000_0000_0000,
        b == 0 || 0x3F80_0000_0000_0000 <= b <= 0x4390_0000_0000_0000,
    ensures
        distance == self::distance(a as int, b as int),
        distance <= ENDLESS,
{
    let (most, least): (u64, u64) = if a >= b {
        (a, b)
    } else {
        (b, a)
    };
    let (m, e): (u64, u64) = parts(most);
    let (n, f): (u64, u64) = parts(least);
    proof {
        lemma_pow2(e as int);
    }
    if least == 0 {
        proof {
            let p = pow2(e as int);
            assert(0 <= m * p) by (nonlinear_arith)
                requires
                    0 <= m,
                    0 < p,
            ;
        }
        return packed(m as u128, 1, e);
    }
    let more: u64 = e - f;
    let raised: u128 = power(more);
    proof {
        lemma_pow2_add(more as int, f as int);
        lemma_pow2(f as int);
        lemma_pow2(more as int);
        lemma_pow2_grows(more as int, 65);
        lemma_powers();
        lemma_pow2(64);
        let (p, q) = (pow2(more as int), pow2(f as int));
        assert(0 <= m * p <= 0x20_0000_0000_0000 * 0x2_0000_0000_0000_0000) by (nonlinear_arith)
            requires
                0 <= m <= 0x20_0000_0000_0000,
                0 <= p <= 0x2_0000_0000_0000_0000,
        ;
        if more == 0 {
            assert(m * 1 == m);
            assert(m >= n);
        } else {
            assert(m * p >= 0x20_0000_0000_0000) by (nonlinear_arith)
                requires
                    m >= 0x10_0000_0000_0000,
                    p >= 2,
            ;
        }
        assert(m * (p * q) - n * q == (m * p - n) * q) by (nonlinear_arith);
        assert((m * p - n) * q >= 0) by (nonlinear_arith)
            requires
                m * p >= n,
                q > 0,
        ;
    }
    packed(m as u128 * raised - n as u128, 1, f)
}

/// How many times the larger of two numbers in double precision is the smaller.
pub fn apart_of(a: u64, b: u64) -> (apart: u64)
    requires
        a <= ENDLESS,
        b <= ENDLESS,
    ensures
        apart == self::apart(a as int, b as int),
        apart <= ENDLESS,
{
    let (most, least): (u64, u64) = if a >= b {
        (a, b)
    } else {
        (b, a)
    };
    if least == 0 || most == ENDLESS {
        return ENDLESS;
    }
    let (m, e): (u64, u64) = parts(most);
    let (n, f): (u64, u64) = parts(least);
    proof {
        let (p, q, u) = (pow2((e - f) as int), pow2(f as int), one());
        lemma_pow2_add((e - f) as int, f as int);
        lemma_pow2_add((e - f) as int, 1074);
        lemma_pow2(f as int);
        lemma_pow2((e - f) as int);
        lemma_pow2(1074);
        assert((m * (p * q)) * u == (m * (p * u)) * q && 0 <= m * (p * u)) by (nonlinear_arith)
            requires
                0 <= m,
                0 < p,
                0 < u,
        ;
        lemma_place_scale(m * (p * u), n as int, q);
    }
    packed(m as u128, n as u128, e - f + 1074)
}

/// The pattern nearest to a fraction of numbers of any size.
pub fn packed_large(n: &Natural, d: &Natural) -> (bits: u64)
    requires
        0 <= n@,
        0 < d@,
    ensures
        bits == bits_of(n@, d@),
        bits <= ENDLESS,
{
    let ghost (top, under) = (n@, d@);
    let mut step: Natural = d.times(1);
    let mut k: u64 = 0;
    assert(under * 1 == under);
    while n.at_least(&step.times(0x20_0000_0000_0000))
        invariant
            top == n@,
            under == d@,
            0 <= top,
            0 < under,
            0 < step@,
            k <= 2046,
            step@ == under * pow2(k as int),
            steps(top, under) == k + steps(top, step@),
        decreases top - step@,
    {
        if k == 2046 {
            proof {
                lemma_steps(top, 2 * step@);
                assert(steps(top, step@) == 1 + steps(top, 2 * step@));
                assert(steps(top, under) >= 2047);
                lemma_pow2(steps(top, under));
                let p = pow2(steps(top, under));
                assert(0 < under * p) by (nonlinear_arith)
                    requires
                        0 < under,
                        0 < p,
                ;
                precision::lemma_nearest(top, under * p);
                assert(place(top, under) >= ENDLESS);
            }
            return ENDLESS;
        }
        proof {
            lemma_pow2(k as int);
            let p = pow2(k as int);
            assert((under * p) * 2 == under * (2 * p)) by (nonlinear_arith);
        }
        step = step.times(2);
        k = k + 1;
    }
    let ghost over = step@;
    let mut rest: Natural = n.times(1);
    let mut whole: u64 = 0;
    let mut power: u64 = 0x20_0000_0000_0000;
    let mut i: u64 = 53;
    proof {
        lemma_powers();
        assert(0 * over == 0);
    }
    while i > 0
        invariant
            i <= 53,
            over == step@,
            0 < over,
            power == pow2(i as int),
            whole + power <= 0x20_0000_0000_0000,
            top == whole * over + rest@,
            0 <= rest@ < power * over,
        decreases i,
    {
        let ghost before = power;
        i = i - 1;
        proof {
            lemma_pow2(i as int);
        }
        power = power / 2;
        let part: Natural = step.times(power);
        proof {
            assert(over * power == power * over) by (nonlinear_arith);
            assert(before * over == power * over + power * over) by (nonlinear_arith)
                requires
                    before == 2 * power,
            ;
        }
        if rest.at_least(&part) {
            rest = rest.minus(&part);
            proof {
                assert((whole + power) * over == whole * over + power * over) by (nonlinear_arith);
            }
            whole = whole + power;
        }
    }
    proof {
        assert(1 * over == over);
        vstd::arithmetic::div_mod::lemma_fundamental_div_mod_converse(top, over, whole as int, rest@);
    }
    let twice: Natural = rest.times(2);
    let less: bool = step.at_least(&twice);
    let up: bool = !less || (twice.at_least(&step) && whole % 2 == 1);
    let near: u64 = if up {
        whole + 1
    } else {
        whole
    };
    let bits: u64 = 0x10_0000_0000_0000 * k + near;
    if bits < ENDLESS {
        bits
    } else {
        ENDLESS
    }
}

/// A power of ten.
pub open spec fn pow10(k: int) -> int
    decreases k,
{
    if k <= 0 {
        1
    } else {
        10 * pow10(k - 1)
    }
}

/// The number in double precision nearest to a whole number times a power of
/// ten.
pub open spec fn decimal(n: int, exponent: int) -> int {
    if exponent >= 0 {
        quotient(n * pow10(exponent), 1)
    } else {
        quotient(n, pow10(-exponent))
    }
}

proof fn lemma_pow10(k: int)
    ensures
        pow10(k) >= pow2(3 * k),
        pow10(k) >= 1,
    decreases k,
{
    if k > 0 {
        lemma_pow10(k - 1);
        lemma_pow2(3 * k - 3);
        lemma_pow2(3 * k - 2);
        lemma_pow2(3 * k - 1);
    } else {
        assert(pow2(3 * k) == 1);
    }
}

proof fn lemma_pow10_add(a: int, b: int)
    requires
        0 <= a,
        0 <= b,
    ensures
        pow10(a + b) == pow10(a) * pow10(b),
    decreases a,
{
    if a > 0 {
        lemma_pow10_add(a - 1, b);
        let (p, q) = (pow10(a - 1), pow10(b));
        assert((10 * p) * q == 10 * (p * q)) by (nonlinear_arith);
    } else {
        assert(1 * pow10(b) == pow10(b));
    }
}

proof fn lemma_pow10_grows(a: int, b: int)
    requires
        a <= b,
    ensures
        pow10(a) <= pow10(b),
    decreases b - a,
{
    if a < b {
        lemma_pow10_grows(a, b - 1);
        lemma_pow10(b - 1);
    }
}

proof fn lemma_many_steps(n: int, d: int, j: int)
    requires
        0 < d,
        0 <= j,
        n >= pow2(j) * (0x20_0000_0000_0000 * d),
    ensures
        steps(n, d) >= j + 1,
    decreases j,
{
    lemma_pow2(j);
    let w = 0x20_0000_0000_0000 * d;
    assert(pow2(j) * w >= w) by (nonlinear_arith)
        requires
            pow2(j) >= 1,
            w > 0,
    ;
    if j > 0 {
        let p = pow2(j - 1);
        assert((2 * p) * w == p * (0x20_0000_0000_0000 * (2 * d))) by (nonlinear_arith)
            requires
                w == 0x20_0000_0000_0000 * d,
        ;
        lemma_many_steps(n, 2 * d, j - 1);
    } else {
        lemma_steps(n, 2 * d);
    }
}

/// Beyond what double precision holds there is no end.
pub proof fn lemma_too_large(n: int, exponent: int)
    requires
        0 < n,
        400 < exponent,
    ensures
        decimal(n, exponent) == ENDLESS,
{
    let ten = pow10(exponent);
    lemma_pow10(exponent);
    lemma_pow2(1200);
    lemma_pow2_grows(1200, 3 * exponent);
    lemma_pow2(1074);
    lemma_pow2_add(1200, 1074);
    lemma_pow2_grows(2099, 2274);
    lemma_pow2_add(2046, 53);
    lemma_powers();
    let (u, big) = (one(), pow2(1200));
    let top = (n * ten) * u;
    assert(top >= big * u) by (nonlinear_arith)
        requires
            top == (n * ten) * u,
            n >= 1,
            ten >= big,
            big >= 1,
            u >= 1,
    ;
    lemma_many_steps(top, 1, 2046);
    let k = steps(top, 1);
    lemma_pow2(k);
    precision::lemma_nearest(top, 1 * pow2(k));
}

/// Less than what double precision holds is nothing.
pub proof fn lemma_too_small(n: int, size: int, exponent: int)
    requires
        0 <= n < pow10(size),
        0 <= size,
        exponent + size < -400,
    ensures
        decimal(n, exponent) == 0,
{
    let under = pow10(-exponent);
    lemma_pow10_add(size, 400);
    lemma_pow10_grows(size + 400, -exponent);
    lemma_pow10(size);
    lemma_pow10(400);
    lemma_pow2(1074);
    lemma_pow2_grows(1076, 1200);
    lemma_pow2(1075);
    let (u, whole, ten) = (one(), pow10(size), pow10(400));
    assert(0 <= n * u && 2 * (n * u) < whole * ten) by (nonlinear_arith)
        requires
            0 <= n < whole,
            1 <= u,
            ten >= 4 * u,
    ;
    lemma_place_small(n * u, under);
    lemma_nothing_near(n * u, under);
}

/// Nothing is nothing in any power of ten.
pub proof fn lemma_nothing(exponent: int)
    ensures
        decimal(0, exponent) == 0,
{
    lemma_pow10(exponent);
    lemma_pow10(-exponent);
    assert(0 * pow10(exponent) == 0 && 0 * one() == 0) by (nonlinear_arith);
    let d = if exponent >= 0 {
        1
    } else {
        pow10(-exponent)
    };
    lemma_place_small(0, d);
    lemma_nothing_near(0, d);
}

/// A number times a power of ten.
fn tens(number: Natural, count: u128) -> (product: Natural)
    ensures
        product@ == number@ * pow10(count as int),
{
    let ghost start = number@;
    let mut product: Natural = number;
    let mut i: u128 = 0;
    assert(start * 1 == start);
    while i < count
        invariant
            i <= count,
            product@ == start * pow10(i as int),
        decreases count - i,
    {
        proof {
            let p = pow10(i as int);
            assert((start * p) * 10 == start * (10 * p)) by (nonlinear_arith);
        }
        product = product.times(10);
        i = i + 1;
    }
    product
}

/// A number in the smallest ones of double precision.
fn in_units(number: Natural) -> (product: Natural)
    ensures
        product@ == number@ * one(),
{
    let ghost start = number@;
    let mut product: Natural = number;
    let mut i: u64 = 0;
    assert(start * 1 == start);
    while i < 1074
        invariant
            i <= 1074,
            product@ == start * pow2(i as int),
        decreases 1074 - i,
    {
        proof {
            lemma_pow2(i as int);
            let p = pow2(i as int);
            assert((start * p) * 2 == start * (2 * p)) by (nonlinear_arith);
        }
        product = product.times(2);
        i = i + 1;
    }
    product
}

/// The number in double precision nearest to a whole number of at most `size`
/// digits times a power of ten.
pub fn decimal_of(number: Natural, size: usize, exponent: i128) -> (bits: u64)
    requires
        0 <= number@ < pow10(size as int),
        -0x200_0000_0000_0000_0000_0000_0000 <= exponent <= 0x200_0000_0000_0000_0000_0000_0000,
    ensures
        bits == decimal(number@, exponent as int),
        bits <= ENDLESS,
{
    if number.is_zero() {
        proof {
            lemma_nothing(exponent as int);
        }
        return 0;
    }
    if exponent > 400 {
        proof {
            lemma_too_large(number@, exponent as int);
        }
        return ENDLESS;
    }
    if exponent + (size as i128) < -400 {
        proof {
            lemma_too_small(number@, size as int, exponent as int);
        }
        return 0;
    }
    proof {
        lemma_pow10(exponent as int);
        lemma_pow10(-exponent);
        lemma_pow2(1074);
    }
    if exponent >= 0 {
        let over: Natural = tens(number, exponent as u128);
        let top: Natural = in_units(over);
        proof {
            let (n, p, u) = (number@, pow10(exponent as int), one());
            assert(0 <= (n * p) * u) by (nonlinear_arith)
                requires
                    0 <= n,
                    1 <= p,
                    1 <= u,
            ;
        }
        packed_large(&top, &Natural::one())
    } else {
        let under: Natural = tens(Natural::one(), (-exponent) as u128);
        let top: Natural = in_units(number);
        proof {
            let (n, p, u) = (number@, pow10(-exponent), one());
            assert(1 * p == p);
            assert(0 <= n * u) by (nonlinear_arith)
                requires
                    0 <= n,
                    1 <= u,
            ;
        }
        packed_large(&top, &under)
    }
}

/// The nearest whole number is at most half away.
proof fn lemma_half_away(n: int, d: int)
    requires
        0 < d,
    ensures
        -d <= 2 * (d * nearest(n, d) - n) <= d,
{
    let (q, r) = (n / d, n % d);
    vstd::arithmetic::div_mod::lemma_fundamental_div_mod(n, d);
    vstd::arithmetic::div_mod::lemma_mod_bound(n, d);
    assert(d * (q + 1) == d * q + d) by (nonlinear_arith);
}

/// How many doublings a number takes says how large it is.
proof fn lemma_steps_bounds(n: int, d: int)
    requires
        0 <= n,
        0 < d,
    ensures
        ({
            let over = d * pow2(steps(n, d));
            &&& 0 < over
            &&& n < 0x20_0000_0000_0000 * over
            &&& steps(n, d) > 0 ==> 0x10_0000_0000_0000 * over <= n
        }),
    decreases n - d,
{
    if n < 0x20_0000_0000_0000 * d {
        assert(d * 1 == d);
    } else {
        lemma_steps_bounds(n, 2 * d);
        let k = steps(n, 2 * d);
        lemma_steps(n, 2 * d);
        lemma_pow2(k);
        let p = pow2(k);
        assert(d * (2 * p) == (2 * d) * p) by (nonlinear_arith);
        if k == 0 {
            assert((2 * d) * 1 == 2 * d);
        }
    }
}

/// What the nearest number in double precision stands for.
proof fn lemma_units_of_place(n: int, d: int)
    requires
        0 <= n,
        0 < d,
    ensures
        units(place(n, d)) == nearest(n, d * pow2(steps(n, d))) * pow2(steps(n, d)),
{
    let step: int = 0x10_0000_0000_0000;
    let k = steps(n, d);
    let over = d * pow2(k);
    let m = nearest(n, over);
    let bits = place(n, d);
    lemma_steps(n, d);
    lemma_steps_bounds(n, d);
    lemma_nearest_at_most(n, over, 2 * step);
    precision::lemma_nearest(n, over);
    lemma_pow2(k);
    let p = pow2(k);
    if k > 0 {
        lemma_nearest_at_least(n, over, step);
        if m == 2 * step {
            vstd::arithmetic::div_mod::lemma_fundamental_div_mod_converse(bits, step, k + 2, 0);
            assert(step * (2 * p) == (2 * step) * p) by (nonlinear_arith);
        } else {
            vstd::arithmetic::div_mod::lemma_fundamental_div_mod_converse(bits, step, k + 1, m - step);
        }
    } else {
        assert(m * 1 == m);
        if m == 2 * step {
            lemma_pow2(0);
            assert(bits / step == 2 && bits % step == 0);
            assert(pow2(1) == 2);
        }
    }
}

/// A number in double precision is within its last digit of what it is nearest
/// to.
pub proof fn lemma_place_error(n: int, d: int)
    requires
        0 <= n,
        0 < d,
    ensures
        -(n + 0x10_0000_0000_0000 * d) <= 0x20_0000_0000_0000 * (d * units(place(n, d)) - n) <= n
            + 0x10_0000_0000_0000 * d,
{
    let k = steps(n, d);
    let p = pow2(k);
    let over = d * p;
    lemma_steps(n, d);
    lemma_steps_bounds(n, d);
    lemma_units_of_place(n, d);
    let m = nearest(n, over);
    lemma_half_away(n, over);
    assert(d * (m * p) == (d * p) * m) by (nonlinear_arith);
    if k == 0 {
        assert(d * 1 == d);
    }
}

/// Hundredths in double precision are within a small part of what they are.
pub proof fn lemma_hundredths_error(p: int)
    requires
        0 <= p,
        place(p * one(), 100) < ENDLESS,
    ensures
        ({
            let (size, u) = (100 * units(quotient(p, 100)), one());
            &&& 0x20_0000_0000_0000 * (size - p * u) <= (p + 1) * u
            &&& 0x20_0000_0000_0000 * (p * u - size) <= (p + 1) * u
        }),
{
    lemma_pow2(1074);
    let u = one();
    assert(0 <= p * u) by (nonlinear_arith)
        requires
            0 <= p,
            0 < u,
    ;
    lemma_place_error(p * u, 100);
    lemma_powers();
    lemma_pow2_grows(64, 1074);
    assert((p + 1) * u == p * u + u) by (nonlinear_arith);
}

/// The number of hundredths, a multiple of `scale`, that is nearest to a number
/// in double precision.
fn hundredths_of(bits: u64, scale: u64) -> (size: u128)
    requires
        bits == 0 || 0x3F80_0000_0000_0000 <= bits <= 0x4390_0000_0000_0000,
        0 < scale <= 10_000_000_000_000_000_000,
    ensures
        size == in_hundredths(bits as int, scale as int),
        size < 0x100_0000_0000_0000_0000_0000_0000_0000,
{
    let (m, e): (u64, u64) = parts(bits);
    let ghost u = one();
    let ghost c = scale as int;
    proof {
        lemma_pow2(1074);
        assert((2 * c) * u == 2 * (c * u) && 2 * c * u == (2 * c) * u && 0 < c * u) by (nonlinear_arith)
            requires
                0 < c,
                0 < u,
        ;
    }
    if bits == 0 {
        proof {
            assert(units(0) == 0);
            vstd::arithmetic::div_mod::lemma_basic_div(c * u, 2 * (c * u));
            assert(0 * c == 0);
        }
        return 0;
    }
    let (base, lift): (u128, u128) = if e >= 1074 {
        let more: u64 = e - 1074;
        let raised: u128 = power(more);
        proof {
            reveal_with_fuel(pow2, 8);
            lemma_pow2_grows(more as int, 7);
            lemma_pow2_add(more as int, 1074);
            let p = pow2(more as int);
            assert(0 <= m * p <= 0x20_0000_0000_0000 * 128) by (nonlinear_arith)
                requires
                    0 <= m <= 0x20_0000_0000_0000,
                    0 <= p <= 128,
            ;
            let n = 200 * (m * p) + c;
            assert(200 * (m * (p * u)) + c * u == n * u) by (nonlinear_arith)
                requires
                    n == 200 * (m * p) + c,
            ;
            lemma_div_scale(n, 2 * c, u);
        }
        (200 * (m as u128 * raised), 1)
    } else {
        let less: u64 = 1074 - e;
        let raised: u128 = power(less);
        proof {
            lemma_pow2(e as int);
            lemma_pow2_add(less as int, e as int);
            lemma_pow2_grows(less as int, 60);
            lemma_powers();
            reveal_with_fuel(pow2, 8);
            lemma_pow2_add(53, 7);
            let (p, q) = (pow2(less as int), pow2(e as int));
            assert(0 < c * p <= 0x8AC7_2304_89E8_0000 * 0x1000_0000_0000_0000) by (nonlinear_arith)
                requires
                    0 < c <= 0x8AC7_2304_89E8_0000,
                    0 < p <= 0x1000_0000_0000_0000,
            ;
            let n = 200 * m + c * p;
            assert(200 * (m * q) + c * (p * q) == n * q && 2 * (c * (p * q)) == (2 * (c * p)) * q) by (nonlinear_arith)
                requires
                    n == 200 * m + c * p,
            ;
            lemma_div_scale(n, 2 * (c * p), q);
        }
        (200 * m as u128, raised)
    };
    assert(0 < c * lift <= 0x8AC7_2304_89E8_0000 * 0x1000_0000_0000_0000) by (nonlinear_arith)
        requires
            0 < c <= 0x8AC7_2304_89E8_0000,
            0 < lift <= 0x1000_0000_0000_0000,
    ;
    let over: u128 = base + scale as u128 * lift;
    let under: u128 = 2 * (scale as u128 * lift);
    proof {
        let q = over as int / under as int;
        vstd::arithmetic::div_mod::lemma_fundamental_div_mod(over as int, under as int);
        vstd::arithmetic::div_mod::lemma_mod_bound(over as int, under as int);
        vstd::arithmetic::div_mod::lemma_div_pos_is_pos(over as int, under as int);
        assert(0 <= q * c && 2 * (q * c) <= base + c) by (nonlinear_arith)
            requires
                (2 * (c * lift)) * q <= base + c * lift,
                0 <= base,
                0 <= q,
                0 < c,
                1 <= lift,
        ;
    }
    over / under * scale as u128
}

/// The number of hundredths with the fewest digits that is read as a number in
/// double precision.
pub fn shortest_of(bits: u64) -> (size: u128)
    requires
        bits == 0 || 0x3F80_0000_0000_0000 <= bits <= 0x4390_0000_0000_0000,
    ensures
        size == shortest(bits as int, 19),
{
    let mut scale: u64 = 10_000_000_000_000_000_000;
    let mut k: u64 = 19;
    assert(pow10(19) == scale) by {
        reveal_with_fuel(pow10, 20);
    }
    while k > 0
        invariant
            bits == 0 || 0x3F80_0000_0000_0000 <= bits <= 0x4390_0000_0000_0000,
            k <= 19,
            scale == pow10(k as int),
            0 < scale <= 10_000_000_000_000_000_000,
            shortest(bits as int, 19) == shortest(bits as int, k as int),
        decreases k,
    {
        let size: u128 = hundredths_of(bits, scale);
        if packed(size, 100, 1074) == bits {
            return size;
        }
        proof {
            lemma_pow10(k as int - 1);
            assert(pow10(k as int) == 10 * pow10(k as int - 1));
        }
        scale = scale / 10;
        k = k - 1;
    }
    hundredths_of(bits, 1)
}

/// The hundredths of a moderate amount are told apart in double precision.
proof fn lemma_hundredths_apart(p: int, r: int)
    requires
        0 <= p < 0x4_0000_0000_0000,
        0 <= r,
        quotient(r, 100) == quotient(p, 100),
    ensures
        r == p,
    decreases r,
{
    lemma_pow2(1074);
    let u = one();
    let limit: int = 0x8_0000_0000_0000;
    lemma_hundredths(p);
    lemma_hundredths_error(p);
    if r > limit {
        lemma_quotient_grows(limit, r, 100);
        lemma_quotient_grows(p, limit, 100);
        lemma_hundredths_apart(p, limit);
    } else {
        lemma_hundredths(r);
        lemma_hundredths_error(r);
        let gap = p - r;
        assert(gap * u == p * u - r * u) by (nonlinear_arith)
            requires
                gap == p - r,
        ;
        assert((p + 1) * u <= 0x4_0000_0000_0000 * u && (r + 1) * u <= 0x10_0000_0000_0000 * u) by (nonlinear_arith)
            requires
                p + 1 <= 0x4_0000_0000_0000,
                r + 1 <= 0x10_0000_0000_0000,
                0 < u,
        ;
        assert(-1 < gap < 1) by (nonlinear_arith)
            requires
                -u < gap * u < u,
                0 < u,
        ;
    }
}

/// A moderate number of hundredths is written with the digits that it has.
pub proof fn lemma_shortest(p: int, k: int)
    requires
        0 <= p < 0x4_0000_0000_0000,
        0 <= k,
    ensures
        shortest(quotient(p, 100), k) == p,
    decreases k,
{
    let bits = quotient(p, 100);
    let c = pow10(k);
    let size = in_hundredths(bits, c);
    lemma_pow10(k);
    lemma_pow2(1074);
    let u = one();
    let v = 100 * units(bits);
    lemma_hundredths(p);
    lemma_hundredths_error(p);
    assert((p + 1) * u <= 0x4_0000_0000_0000 * u) by (nonlinear_arith)
        requires
            p + 1 <= 0x4_0000_0000_0000,
            0 < u,
    ;
    let (whole, rest) = ((2 * v + c * u) / (2 * c * u), (2 * v + c * u) % (2 * c * u));
    assert(2 * c * u > 0) by (nonlinear_arith)
        requires
            0 < c,
            0 < u,
    ;
    vstd::arithmetic::div_mod::lemma_fundamental_div_mod(2 * v + c * u, 2 * c * u);
    vstd::arithmetic::div_mod::lemma_mod_bound(2 * v + c * u, 2 * c * u);
    lemma_units_grow(0, bits);
    assert(c * u > 0) by (nonlinear_arith)
        requires
            0 < c,
            0 < u,
    ;
    vstd::arithmetic::div_mod::lemma_div_pos_is_pos(2 * v + c * u, 2 * c * u);
    assert(size >= 0) by (nonlinear_arith)
        requires
            size == whole * c,
            0 <= whole,
            0 < c,
    ;
    assert((2 * c * u) * whole == 2 * (size * u)) by (nonlinear_arith)
        requires
            size == whole * c,
    ;
    assert(2 * c * u == 2 * (c * u)) by (nonlinear_arith);
    assert(-(c * u) <= 2 * v - 2 * (size * u) + c * u - c * u <= c * u);
    if k == 0 || size == p {
        let gap = p - size;
        assert(gap * u == p * u - size * u) by (nonlinear_arith)
            requires
                gap == p - size,
        ;
        if k == 0 {
            assert(c * u == u);
            assert(-1 < gap < 1) by (nonlinear_arith)
                requires
                    -u < gap * u < u,
                    0 < u,
            ;
        }
    } else {
        if quotient(size, 100) == bits {
            lemma_hundredths_apart(p, size);
        }
        lemma_shortest(p, k - 1);
    }
}

/// An amount in big blinds, times ten in double precision, is within a small
/// part of what it is.
proof fn lemma_tenths_error(c: int)
    requires
        0 <= c < 0x1_0000_0000_0000_0000,
    ensures
        ({
            let (a, u) = (precision::double(c), one());
            let size = 10 * units(product(ratio(c, 100), 10));
            &&& 0x8_0000_0000_0000 * (size - a * u) <= (a + 1) * u
            &&& 0x8_0000_0000_0000 * (a * u - size) <= (a + 1) * u
        }),
{
    let (a, u) = (precision::double(c), one());
    precision::lemma_double(c);
    precision::lemma_double_bounds(c);
    precision::lemma_nearest(100, 1);
    assert(precision::double(100) == 100) by {
        reveal_with_fuel(precision::coarse, 2);
        assert(100 * 1 == 100);
    }
    lemma_ratio_bound(c, 100);
    lemma_pow2(1074);
    let bits = ratio(c, 100);
    assert(place(a * u, 100) < ENDLESS);
    lemma_hundredths_error(a);
    let v = units(bits);
    lemma_bits(a * u, 100);
    lemma_units_grow(0, bits);
    lemma_place_error(v * 10, 1);
    assert((a + 1) * u == a * u + u && 0 <= a * u) by (nonlinear_arith)
        requires
            0 <= a,
            0 < u,
    ;
    lemma_pow2_add(1074, 68);
    lemma_powers();
    lemma_pow2_grows(64, 1074);
    lemma_pow2_add(64, 4);
    reveal_with_fuel(pow2, 5);
    let top = pow2(1142);
    assert(v * 10 <= top) by (nonlinear_arith)
        requires
            100 * v <= 2 * (a * u) + u,
            a <= 0x1_0000_0000_0000_0000,
            u >= 1,
            top == u * 0x10_0000_0000_0000_0000,
    ;
    lemma_place_grows(v * 10, top, 1);
    lemma_power_place(1142);
}

/// Tenths of big blinds are at most half a tenth from what they round.
pub proof fn lemma_tenths(c: int)
    requires
        0 <= c < 0x1_0000_0000_0000_0000,
    ensures
        ({
            let size = 10 * rounded(product(ratio(c, 100), 10));
            &&& 0 <= size <= c + 0x3000
            &&& c < 0x4_0000_0000_0000 ==> -5 <= c - size <= 5
            &&& c < 0x4_0000_0000_0000 && c % 10 == 0 ==> size == c
        }),
{
    let (a, u) = (precision::double(c), one());
    lemma_tenths_error(c);
    precision::lemma_double(c);
    precision::lemma_double_bounds(c);
    lemma_pow2(1074);
    let bits = product(ratio(c, 100), 10);
    let v = units(bits);
    let t = rounded(bits);
    lemma_ratio_bound(c, 100);
    lemma_product(ratio(c, 100), 10);
    lemma_units_grow(0, bits);
    vstd::arithmetic::div_mod::lemma_fundamental_div_mod(2 * v + u, 2 * u);
    vstd::arithmetic::div_mod::lemma_mod_bound(2 * v + u, 2 * u);
    vstd::arithmetic::div_mod::lemma_div_pos_is_pos(2 * v + u, 2 * u);
    assert((2 * u) * t == 2 * (t * u)) by (nonlinear_arith);
    assert((a + 1) * u == a * u + u) by (nonlinear_arith);
    let more = 10 * t - a;
    assert(more * u == 10 * (t * u) - a * u) by (nonlinear_arith)
        requires
            more == 10 * t - a,
    ;
    assert((a + 1) * u <= 0x1_0000_0000_0000_0001 * u) by (nonlinear_arith)
        requires
            a <= 0x1_0000_0000_0000_0000,
            0 < u,
    ;
    assert(more < 0x2008) by (nonlinear_arith)
        requires
            more * u < 0x2008 * u,
            0 < u,
    ;
    if c < 0x4_0000_0000_0000 {
        assert((a + 1) * u <= 0x4_0000_0000_0000 * u) by (nonlinear_arith)
            requires
                a + 1 <= 0x4_0000_0000_0000,
                0 < u,
        ;
        assert(-6 < more < 6) by (nonlinear_arith)
            requires
                -6 * u < more * u < 6 * u,
                0 < u,
        ;
    }
}

/// A larger fraction has no earlier place.
proof fn lemma_place_of_fractions(n: int, d: int, m: int, e: int)
    requires
        0 <= n,
        0 <= m,
        0 < d,
        0 < e,
        n * e <= m * d,
    ensures
        place(n, d) <= place(m, e),
{
    lemma_place_scale(n, d, e);
    lemma_place_scale(m, e, d);
    assert(d * e == e * d) by (nonlinear_arith);
    assert(0 <= n * e && 0 < d * e) by (nonlinear_arith)
        requires
            0 <= n,
            0 < d,
            0 < e,
    ;
    lemma_place_grows(n * e, m * d, d * e);
}

/// How far apart two numbers are is a matter of their ratio.
pub proof fn lemma_apart_by_ratio(a: int, p: int, b: int)
    requires
        0 < a <= p <= b < ENDLESS,
    ensures
        ({
            let (x, y, z) = (units(a), units(p), units(b));
            &&& x * z <= y * y ==> apart(b, p) <= apart(a, p)
            &&& x * z >= y * y ==> apart(a, p) <= apart(b, p)
            &&& apart(p, a) <= apart(b, a)
            &&& apart(p, b) <= apart(a, b)
        }),
{
    let (x, y, z, u) = (units(a), units(p), units(b), one());
    lemma_pow2(1074);
    lemma_units_grow(1, a);
    lemma_units_grow(a, p);
    lemma_units_grow(p, b);
    assert(0 <= x * u && 0 <= y * u && 0 <= z * u) by (nonlinear_arith)
        requires
            0 < x,
            0 < y,
            0 < z,
            0 < u,
    ;
    assert(x * z <= y * y ==> (z * u) * x <= (y * u) * y) by (nonlinear_arith)
        requires
            0 < u,
    ;
    assert(x * z >= y * y ==> (z * u) * x >= (y * u) * y) by (nonlinear_arith)
        requires
            0 < u,
    ;
    if x * z <= y * y {
        lemma_place_of_fractions(z * u, y, y * u, x);
    }
    if x * z >= y * y {
        lemma_place_of_fractions(y * u, x, z * u, y);
    }
    assert((y * u) * x <= (z * u) * x) by (nonlinear_arith)
        requires
            y <= z,
            0 < x,
            0 < u,
    ;
    lemma_place_of_fractions(y * u, x, z * u, x);
    assert((z * u) * x <= (z * u) * y) by (nonlinear_arith)
        requires
            x <= y,
            0 < z,
            0 < u,
    ;
    lemma_place_of_fractions(z * u, y, z * u, x);
}

/// What is well short of a whole number comes before it, and what is as large
/// does not.
pub proof fn lemma_beside_whole(n: int, whole: int)
    requires
        0 <= n,
        0 <= whole < 0x100_0000_0000,
    ensures
        n >= whole * one() ==> bits_of(n, 1) >= quotient(whole, 1),
        200 * n <= (200 * whole - 1) * one() ==> bits_of(n, 1) < quotient(whole, 1),
{
    let u = one();
    lemma_pow2(1074);
    assert(0 <= whole * u) by (nonlinear_arith)
        requires
            0 <= whole,
            0 < u,
    ;
    if n >= whole * u {
        lemma_place_grows(whole * u, n, 1);
    }
    if 200 * n <= (200 * whole - 1) * u {
        let goal = whole * u;
        assert((200 * whole - 1) * u == 200 * goal - u) by (nonlinear_arith)
            requires
                goal == whole * u,
        ;
        assert(goal <= 0x100_0000_0000 * u) by (nonlinear_arith)
            requires
                goal == whole * u,
                whole <= 0x100_0000_0000,
                0 < u,
        ;
        lemma_powers();
        lemma_pow2_add(40, 1074);
        lemma_power_place(1114);
        lemma_place_grows(goal, pow2(1114), 1);
        lemma_place_grows(n, goal, 1);
        lemma_place_error(n, 1);
        lemma_place_error(goal, 1);
        lemma_pow2_grows(64, 1074);
        lemma_bits(n, 1);
        if place(n, 1) == place(goal, 1) {
            assert(false);
        }
    }
}

/// Two moderate amounts are so many hundredths apart, but for a small part of
/// one.
pub proof fn lemma_hundredths_distance(p: int, r: int)
    requires
        0 <= r <= p < 0x4000_0000_0000,
    ensures
        ({
            let gap = units(quotient(p, 100)) - units(quotient(r, 100));
            &&& 0 <= gap
            &&& -one() <= 32 * (100 * gap - (p - r) * one()) <= one()
            &&& quotient(r, 100) <= quotient(p, 100)
            &&& distance(quotient(p, 100), quotient(r, 100)) == bits_of(gap, 1)
            &&& distance(quotient(r, 100), quotient(p, 100)) == bits_of(gap, 1)
        }),
{
    let u = one();
    lemma_pow2(1074);
    lemma_hundredths(p);
    lemma_hundredths(r);
    lemma_hundredths_error(p);
    lemma_hundredths_error(r);
    lemma_quotient_grows(r, p, 100);
    lemma_units_grow(quotient(r, 100), quotient(p, 100));
    assert((p + 1) * u <= 0x4000_0000_0000 * u && (r + 1) * u <= 0x4000_0000_0000 * u) by (nonlinear_arith)
        requires
            p + 1 <= 0x4000_0000_0000,
            r + 1 <= 0x4000_0000_0000,
            0 < u,
    ;
    assert((p - r) * u == p * u - r * u) by (nonlinear_arith);
}

/// A moderate amount in tenths of big blinds is at most half a tenth from what
/// it is.
pub proof fn lemma_shown_tenths(c: int)
    requires
        0 <= c < 0x4_0000_0000_0000,
    ensures
        ({
            let tenths = in_parts(ratio(c, 100), 10);
            &&& 0 <= tenths
            &&& -5 <= 10 * tenths - c <= 5
        }),
{
    let u = one();
    lemma_pow2(1074);
    precision::lemma_double(c);
    precision::lemma_double_bounds(c);
    precision::lemma_double_bounds(100);
    let bits = ratio(c, 100);
    lemma_hundredths(c);
    lemma_hundredths_error(c);
    let v = units(bits);
    lemma_quotient_grows(0, c, 100);
    lemma_units_grow(0, bits);
    lemma_half_away(v * 10, u);
    precision::lemma_nearest(v * 10, u);
    let tenths = nearest(v * 10, u);
    let gap = 10 * tenths - c;
    assert(gap * u == 10 * (u * tenths) - c * u) by (nonlinear_arith)
        requires
            gap == 10 * tenths - c,
    ;
    assert((c + 1) * u <= 0x4_0000_0000_0000 * u) by (nonlinear_arith)
        requires
            c + 1 <= 0x4_0000_0000_0000,
            0 < u,
    ;
    assert(-6 < gap < 6) by (nonlinear_arith)
        requires
            -6 * u < gap * u < 6 * u,
            0 < u,
    ;
}

/// What is well to either side of five hundredths comes before or after them.
pub proof fn lemma_near_five(n: int)
    requires
        0 <= n,
    ensures
        100 * n <= 4 * one() + one() / 32 + 1 ==> bits_of(n, 1) < quotient(5, 100),
        100 * n >= 6 * one() - one() / 32 - 1 ==> bits_of(n, 1) >= quotient(5, 100),
{
    let u = one();
    lemma_pow2(1074);
    lemma_powers();
    lemma_pow2_grows(64, 1074);
    let five = quotient(5, 100);
    lemma_hundredths(5);
    lemma_hundredths_error(5);
    let v = units(five);
    lemma_place_of_units(five);
    if 100 * n >= 6 * u - u / 32 - 1 {
        lemma_place_grows(v, n, 1);
    }
    if 100 * n <= 4 * u + u / 32 + 1 {
        lemma_place_grows(n, v, 1);
        lemma_place_error(n, 1);
        lemma_bits(n, 1);
        if place(n, 1) == five {
            assert(false);
        }
    }
}

/// A pattern is the place of what it stands for.
proof fn lemma_place_of_units(bits: int)
    requires
        0 <= bits < ENDLESS,
    ensures
        place(units(bits), 1) == bits,
{
    let step: int = 0x10_0000_0000_0000;
    if bits < 2 * step {
        lemma_place_small(bits, 1);
        precision::lemma_nearest(bits, 1);
    } else {
        let (m, e) = (step + bits % step, bits / step - 1);
        lemma_place_shifted(m, 1, e);
        lemma_place_small(m, 1);
        precision::lemma_nearest(m, 1);
    }
}

/// A fraction of moderate numbers reaches a power of two in double precision
/// exactly where it does, and so it does a pattern just below it.
pub proof fn lemma_reaches_power(p: int, q: int, k: int, pattern: int)
    requires
        0 <= p < 0x100_0000_0000,
        0 < q < 0x100_0000_0000,
        0 <= k <= 7,
        0 <= pattern <= (1023 + k) * 0x10_0000_0000_0000,
        pattern >= (1023 + k) * 0x10_0000_0000_0000 - 2,
    ensures
        quotient(p, q) >= pattern <==> p >= pow2(k) * q,
{
    let u = one();
    let goal = pow2(1074 + k);
    let step: int = 0x10_0000_0000_0000;
    lemma_pow2(1074);
    lemma_pow2(k);
    lemma_pow2_add(k, 1074);
    lemma_power_place(1074 + k);
    lemma_powers();
    lemma_pow2_grows(64, 1074);
    reveal_with_fuel(pow2, 9);
    lemma_pow2_grows(k, 7);
    let power = pow2(k);
    assert(0 <= p * u) by (nonlinear_arith)
        requires
            0 <= p,
            0 < u,
    ;
    if p >= power * q {
        assert(p * u >= goal * q) by (nonlinear_arith)
            requires
                p >= power * q,
                goal == power * u,
                0 < u,
        ;
        lemma_pow2(1074 + k);
        lemma_place_scale(goal, 1, q);
        assert(0 <= goal * q) by (nonlinear_arith)
            requires
                0 <= goal,
                0 < q,
        ;
        assert(1 * q == q);
        lemma_place_grows(goal * q, p * u, q);
    } else if quotient(p, q) >= pattern {
        let bits = quotient(p, q);
        lemma_below_power(k, pattern);
        lemma_place_error(p * u, q);
        assert(p * u <= 0x100_0000_0000 * (u * q)) by (nonlinear_arith)
            requires
                p <= 0x100_0000_0000,
                1 <= q,
                0 < u,
        ;
        lemma_pow2_add(40, 1074);
        lemma_power_place(1114);
        assert(p * u <= pow2(1114) * q) by (nonlinear_arith)
            requires
                p <= 0x100_0000_0000,
                1 <= q,
                0 < u,
                pow2(1114) == 0x100_0000_0000 * u,
        ;
        lemma_pow2(1114);
        lemma_place_at_most(p * u, q, pow2(1114));
        lemma_units_grow(pattern, bits);
        let v = units(bits);
        assert((power * q - 1) * u == (power * q) * u - u) by (nonlinear_arith);
        assert(p * u <= (power * q - 1) * u) by (nonlinear_arith)
            requires
                p <= power * q - 1,
                0 < u,
        ;
        let w = units(pattern);
        assert(q * w <= q * v) by (nonlinear_arith)
            requires
                w <= v,
                0 < q,
        ;
        assert(0x8_0000_0000_0000 * (q * goal - q * w) <= q * goal) by (nonlinear_arith)
            requires
                0x8_0000_0000_0000 * (goal - w) <= goal,
                0 < q,
        ;
        assert(q * goal == (power * q) * u) by (nonlinear_arith)
            requires
                goal == power * u,
        ;
        let wide = power * q;
        assert(wide <= 0x8000_0000_0000) by (nonlinear_arith)
            requires
                wide == power * q,
                0 <= power <= 128,
                0 <= q <= 0x100_0000_0000,
        ;
        assert(wide * u <= 0x8000_0000_0000 * u) by (nonlinear_arith)
            requires
                wide <= 0x8000_0000_0000,
                0 < u,
        ;
        assert(false);
    }
}

/// What the patterns just below a power of two stand for.
proof fn lemma_below_power(k: int, pattern: int)
    requires
        0 <= k <= 7,
        0 <= pattern <= (1023 + k) * 0x10_0000_0000_0000,
        pattern >= (1023 + k) * 0x10_0000_0000_0000 - 2,
    ensures
        0x8_0000_0000_0000 * (pow2(1074 + k) - units(pattern)) <= pow2(1074 + k),
{
    let step: int = 0x10_0000_0000_0000;
    lemma_powers();
    lemma_pow2(1074 + k);
    if pattern == (1023 + k) * step {
        lemma_pow2_add(52, 1022 + k);
        assert(pattern / step == 1023 + k && pattern % step == 0);
    } else {
        let short = (1023 + k) * step - pattern;
        assert(pattern / step == 1022 + k && pattern % step == step - short);
        lemma_pow2_add(53, 1021 + k);
        let p = pow2(1021 + k);
        lemma_pow2(1021 + k);
        assert((2 * step - short) * p == 2 * step * p - short * p) by (nonlinear_arith);
        assert(short * p <= 2 * p) by (nonlinear_arith)
            requires
                short <= 2,
                0 < p,
        ;
    }
}

/// So many sixths of a fraction of moderate numbers are at most half a sixth
/// from what they are.
pub proof fn lemma_sixths(p: int, q: int)
    requires
        0 <= p < 0x100_0000_0000,
        0 < q < 0x100_0000_0000,
    ensures
        ({
            let t = rounded(product(quotient(p, q), 6));
            &&& 0 <= t
            &&& -q <= 12 * p - 2 * (t * q) <= q
        }),
{
    let u = one();
    lemma_pow2(1074);
    lemma_powers();
    lemma_pow2_grows(64, 1074);
    let bits = quotient(p, q);
    assert(0 <= p * u) by (nonlinear_arith)
        requires
            0 <= p,
            0 < u,
    ;
    lemma_pow2_add(40, 1074);
    lemma_power_place(1114);
    assert(p * u <= pow2(1114) * q) by (nonlinear_arith)
        requires
            p <= 0x100_0000_0000,
            1 <= q,
            0 < u,
            pow2(1114) == 0x100_0000_0000 * u,
    ;
    lemma_pow2(1114);
    lemma_place_at_most(p * u, q, pow2(1114));
    lemma_bits(p * u, q);
    lemma_place_error(p * u, q);
    lemma_units_grow(0, bits);
    let v = units(bits);
    lemma_place_error(v * 6, 1);
    lemma_bits(v * 6, 1);
    // How large the number can be.
    let qv = q * v;
    assert(0 <= qv) by (nonlinear_arith)
        requires
            qv == q * v,
            0 < q,
            0 <= v,
    ;
    lemma_pow2(1117);
    lemma_pow2_add(3, 1114);
    reveal_with_fuel(pow2, 4);
    lemma_power_place(1117);
    lemma_pow2_grows(1074, 1114);
    let big = pow2(1114);
    assert(q * 0x10_0000_0000_0000 <= 0x10_0000_0000_0000 * 0x100_0000_0000);
    lemma_units_grow(bits, place(big, 1));
    lemma_place_of_units(place(big, 1));
    lemma_units_of_power(1114);
    lemma_place_grows(v * 6, pow2(1117), 1);
    let y = product(bits, 6);
    let w = units(y);
    lemma_units_grow(0, y);
    let t = rounded(y);
    vstd::arithmetic::div_mod::lemma_fundamental_div_mod(2 * w + u, 2 * u);
    vstd::arithmetic::div_mod::lemma_mod_bound(2 * w + u, 2 * u);
    vstd::arithmetic::div_mod::lemma_div_pos_is_pos(2 * w + u, 2 * u);
    assert((2 * u) * t == 2 * (t * u)) by (nonlinear_arith);
    let (qw, qtu, pu) = (q * w, q * (t * u), p * u);
    assert(-(q * u) <= 2 * qw - 2 * qtu <= q * u) by (nonlinear_arith)
        requires
            qw == q * w,
            qtu == q * (t * u),
            -u <= 2 * w - 2 * (t * u) <= u,
            0 < q,
    ;
    assert(0x20_0000_0000_0000 * (qw - 6 * qv) <= 6 * qv + 0x10_0000_0000_0000 * q && 0x20_0000_0000_0000 * (6 * qv
        - qw) <= 6 * qv + 0x10_0000_0000_0000 * q) by (nonlinear_arith)
        requires
            qw == q * w,
            qv == q * v,
            0x20_0000_0000_0000 * (1 * w - v * 6) <= v * 6 + 0x10_0000_0000_0000 * 1,
            -(v * 6 + 0x10_0000_0000_0000 * 1) <= 0x20_0000_0000_0000 * (1 * w - v * 6),
            0 < q,
    ;
    assert(pu <= 0x100_0000_0000 * u) by (nonlinear_arith)
        requires
            pu == p * u,
            p <= 0x100_0000_0000,
            0 < u,
    ;
    let gap = 12 * p - 2 * (t * q);
    assert(gap * u == 12 * pu - 2 * qtu) by (nonlinear_arith)
        requires
            gap == 12 * p - 2 * (t * q),
            pu == p * u,
            qtu == q * (t * u),
    ;
    assert(-(q * u) - u < gap * u < q * u + u);
    assert(-q - 1 < gap < q + 1) by (nonlinear_arith)
        requires
            -(q * u) - u < gap * u < q * u + u,
            0 < u,
    ;
}

/// A power of two is itself in double precision.
proof fn lemma_units_of_power(k: int)
    requires
        52 <= k,
    ensures
        units((k - 51) * 0x10_0000_0000_0000) == pow2(k),
{
    let bits = (k - 51) * 0x10_0000_0000_0000;
    lemma_powers();
    lemma_pow2_add(52, k - 52);
    if k == 52 {
        assert(pow2(52) == bits);
    } else {
        vstd::arithmetic::div_mod::lemma_fundamental_div_mod_converse(bits, 0x10_0000_0000_0000, k - 51, 0);
    }
}

/// So many hundredths of a fraction of moderate numbers are at most half a
/// hundredth from what they are.
pub proof fn lemma_shown_hundredths(p: int, q: int)
    requires
        0 <= p < 0x100_0000_0000,
        0 < q < 0x100_0000_0000,
    ensures
        ({
            let t = in_parts(ratio(p, q), 100);
            &&& 0 <= t
            &&& -q <= 200 * p - 2 * (t * q) <= q
        }),
{
    let u = one();
    lemma_pow2(1074);
    lemma_powers();
    lemma_pow2_grows(64, 1074);
    precision::lemma_double_bounds(p);
    precision::lemma_double_bounds(q);
    let bits = quotient(p, q);
    assert(0 <= p * u) by (nonlinear_arith)
        requires
            0 <= p,
            0 < u,
    ;
    lemma_pow2_add(40, 1074);
    lemma_power_place(1114);
    assert(p * u <= pow2(1114) * q) by (nonlinear_arith)
        requires
            p <= 0x100_0000_0000,
            1 <= q,
            0 < u,
            pow2(1114) == 0x100_0000_0000 * u,
    ;
    lemma_pow2(1114);
    lemma_place_at_most(p * u, q, pow2(1114));
    lemma_bits(p * u, q);
    lemma_place_error(p * u, q);
    lemma_units_grow(0, bits);
    let v = units(bits);
    lemma_half_away(v * 100, u);
    precision::lemma_nearest(v * 100, u);
    let t = nearest(v * 100, u);
    let (qv, qut, pu) = (q * v, q * (u * t), p * u);
    assert(-(q * u) <= 2 * qut - 200 * qv <= q * u) by (nonlinear_arith)
        requires
            qv == q * v,
            qut == q * (u * t),
            -u <= 2 * (u * t - v * 100) <= u,
            0 < q,
    ;
    assert(pu <= 0x100_0000_0000 * u) by (nonlinear_arith)
        requires
            pu == p * u,
            p <= 0x100_0000_0000,
            0 < u,
    ;
    let gap = 200 * p - 2 * (t * q);
    assert(gap * u == 200 * pu - 2 * qut) by (nonlinear_arith)
        requires
            gap == 200 * p - 2 * (t * q),
            pu == p * u,
            qut == q * (u * t),
    ;
    assert(-q - 1 < gap < q + 1) by (nonlinear_arith)
        requires
            -(q * u) - u < gap * u < q * u + u,
            0 < u,
    ;
}

} // verus!
