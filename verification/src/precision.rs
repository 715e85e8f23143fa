//! Amounts worked out in double precision, held as whole numbers.
//!
//! A number in double precision has at most 53 significant binary digits, and
//! every operation gives the nearest such number, of two as near the even one.
//! A share of a pot goes through three such steps, and can come out a chip away
//! from the same share worked out exactly.
use vstd::prelude::*;

verus! {

/// The whole number nearest to a fraction, of two as near the even one.
pub open spec fn nearest(n: int, d: int) -> int {
    let (whole, rest) = (n / d, n % d);
    if 2 * rest > d || (2 * rest == d && whole % 2 == 1) {
        whole + 1
    } else {
        whole
    }
}

/// The first doubling of `d` that leaves at most 53 binary digits of `n`.
pub open spec fn coarse(n: int, d: int) -> int
    decreases n - d,
{
    if d <= 0 || n < 0x20_0000_0000_0000 * d {
        d
    } else {
        coarse(n, 2 * d)
    }
}

/// The power of two that gives a fraction 53 binary digits, where it has fewer.
pub open spec fn fine(n: int, d: int) -> int
    decreases 0x20_0000_0000_0000 * d - n,
{
    if n <= 0 || n >= 0x10_0000_0000_0000 * d {
        1
    } else {
        2 * fine(2 * n, d)
    }
}

/// A whole number in double precision.
pub open spec fn double(n: int) -> int {
    nearest(n, coarse(n, 1)) * coarse(n, 1)
}

/// `percent` hundredths of `amount` in double precision, to the nearest whole
/// number, halves up. The hundredths and the amount are brought to double
/// precision each, and so is their product.
pub open spec fn portion(amount: int, percent: int) -> int {
    if percent <= 0 {
        0
    } else {
        let scale = fine(percent, 100);
        let product = double(double(amount) * nearest(percent * scale, 100));
        (2 * product + scale) / (2 * scale)
    }
}

pub proof fn lemma_nearest(n: int, d: int)
    requires
        0 <= n,
        0 < d,
    ensures
        0 <= nearest(n, d),
        d * nearest(n, d) <= n + d,
        d == 1 ==> nearest(n, d) == n,
{
    let (whole, rest) = (n / d, n % d);
    vstd::arithmetic::div_mod::lemma_fundamental_div_mod(n, d);
    vstd::arithmetic::div_mod::lemma_mod_bound(n, d);
    vstd::arithmetic::div_mod::lemma_div_pos_is_pos(n, d);
    assert(d * (whole + 1) == d * whole + d) by (nonlinear_arith);
}

proof fn lemma_coarse(n: int, d: int)
    requires
        0 < d,
    ensures
        d <= coarse(n, d),
        coarse(n, d) == d || coarse(n, d) <= n,
    decreases n - d,
{
    if n >= 0x20_0000_0000_0000 * d {
        lemma_coarse(n, 2 * d);
    }
}

pub proof fn lemma_double(n: int)
    requires
        0 <= n,
    ensures
        0 <= double(n) <= 2 * n,
        0 < coarse(n, 1) <= n + 1,
{
    let d = coarse(n, 1);
    lemma_coarse(n, 1);
    lemma_nearest(n, d);
    let near = nearest(n, d);
    assert(near * d == d * near) by (nonlinear_arith);
    assert(near * d >= 0) by (nonlinear_arith)
        requires
            near >= 0,
            d > 0,
    ;
}

/// A number that fits a machine word is positive in double precision where it
/// is positive, at most the word's size and little larger than it was.
pub proof fn lemma_double_bounds(n: int)
    requires
        0 <= n < 0x1_0000_0000_0000_0000,
    ensures
        double(n) <= 0x1_0000_0000_0000_0000,
        double(n) <= n + 0x800,
        n < 0x20_0000_0000_0000 ==> double(n) == n,
        0 < n ==> 0 < double(n),
{
    let d = coarse(n, 1);
    lemma_coarse(n, 1);
    reveal_with_fuel(coarse, 13);
    lemma_nearest(n, d);
    let near = nearest(n, d);
    if n < 0x20_0000_0000_0000 {
        assert(near * 1 == near);
    } else {
        lemma_coarse_bounds(n, 1);
        assert(d * 0x20_0000_0000_0000 <= 0x1_0000_0000_0000_0000);
        assert(near * d == d * near) by (nonlinear_arith);
        let whole = n / d;
        assert(0x10_0000_0000_0000 <= whole < 0x20_0000_0000_0000) by (nonlinear_arith)
            requires
                whole == n / d,
                0x10_0000_0000_0000 * d <= n < 0x20_0000_0000_0000 * d,
                0 < d,
        ;
        assert(0 < near * d <= 0x20_0000_0000_0000 * d) by (nonlinear_arith)
            requires
                0 < near <= 0x20_0000_0000_0000,
                0 < d,
        ;
    }
}

proof fn lemma_coarse_bounds(n: int, d: int)
    requires
        0 < d,
        0x10_0000_0000_0000 * d <= n,
    ensures
        0x10_0000_0000_0000 * coarse(n, d) <= n < 0x20_0000_0000_0000 * coarse(n, d),
    decreases n - d,
{
    if n >= 0x20_0000_0000_0000 * d {
        lemma_coarse_bounds(n, 2 * d);
    }
}

proof fn lemma_fine(n: int, d: int)
    requires
        0 < n,
        0 < d,
    ensures
        1 <= fine(n, d),
        0x10_0000_0000_0000 * d <= n * fine(n, d),
    decreases 0x20_0000_0000_0000 * d - n,
{
    if n < 0x10_0000_0000_0000 * d {
        lemma_fine(2 * n, d);
        let rest = fine(2 * n, d);
        assert(n * (2 * rest) == (2 * n) * rest) by (nonlinear_arith);
    } else {
        assert(n * 1 == n);
    }
}

/// A portion is at most a few times as large as the share that it stands for.
pub proof fn lemma_portion(amount: int, percent: int)
    requires
        0 <= amount,
    ensures
        0 <= portion(amount, percent),
        percent > 0 ==> 100 * portion(amount, percent) <= 8 * (amount * percent) + 50,
{
    if percent > 0 {
        let scale = fine(percent, 100);
        lemma_fine(percent, 100);
        let scaled = percent * scale;
        let part = nearest(scaled, 100);
        lemma_nearest(scaled, 100);
        assert(50 * part <= scaled);
        let start = double(amount);
        lemma_double(amount);
        let exact = start * part;
        assert(0 <= exact && 50 * exact <= (2 * amount) * scaled) by (nonlinear_arith)
            requires
                0 <= start <= 2 * amount,
                0 <= part,
                50 * part <= scaled,
                exact == start * part,
        ;
        let product = double(exact);
        lemma_double(exact);
        let result = (2 * product + scale) / (2 * scale);
        vstd::arithmetic::div_mod::lemma_fundamental_div_mod(2 * product + scale, 2 * scale);
        vstd::arithmetic::div_mod::lemma_mod_bound(2 * product + scale, 2 * scale);
        vstd::arithmetic::div_mod::lemma_div_pos_is_pos(2 * product + scale, 2 * scale);
        let whole = amount * percent;
        assert((2 * amount) * scaled == 2 * (whole * scale)) by (nonlinear_arith)
            requires
                scaled == percent * scale,
                whole == amount * percent,
        ;
        assert(100 * ((2 * scale) * result) <= 16 * (whole * scale) + 100 * scale);
        assert(100 * result <= 8 * whole + 50) by (nonlinear_arith)
            requires
                100 * ((2 * scale) * result) <= 16 * (whole * scale) + 100 * scale,
                scale > 0,
        ;
    }
}

/// The whole number nearest to a fraction.
pub fn nearest_of(n: u128, d: u128) -> (near: u128)
    requires
        0 < d < 0x1_0000_0000_0000_0000_0000_0000_0000,
        n < 0x1000_0000_0000_0000_0000_0000_0000_0000,
    ensures
        near == nearest(n as int, d as int),
{
    let whole: u128 = n / d;
    let rest: u128 = n % d;
    assert(whole <= n) by (nonlinear_arith)
        requires
            whole == n / d,
            d > 0,
    ;
    if 2 * rest > d || (2 * rest == d && whole % 2 == 1) {
        whole + 1
    } else {
        whole
    }
}

/// The step between numbers of the size of `n` in double precision.
fn coarse_of(n: u128) -> (d: u128)
    requires
        n < 0x1000_0000_0000_0000_0000_0000_0000_0000,
    ensures
        d == coarse(n as int, 1),
        0 < d < 0x1_0000_0000_0000_0000_0000_0000_0000,
{
    let most: u128 = n / 0x20_0000_0000_0000;
    let mut d: u128 = 1;
    while most >= d
        invariant
            most == n / 0x20_0000_0000_0000,
            n < 0x1000_0000_0000_0000_0000_0000_0000_0000,
            0 < d,
            d == 1 || d <= 2 * most,
            coarse(n as int, 1) == coarse(n as int, d as int),
        decreases 2 * most + 1 - d,
    {
        d = 2 * d;
    }
    d
}

/// A whole number in double precision.
pub fn double_of(n: u128) -> (rounded: u128)
    requires
        n < 0x800_0000_0000_0000_0000_0000_0000_0000,
    ensures
        rounded == double(n as int),
        rounded <= 2 * n,
{
    let d: u128 = coarse_of(n);
    let near: u128 = nearest_of(n, d);
    proof {
        lemma_double(n as int);
    }
    near * d
}

/// The power of two that gives hundredths 53 binary digits.
fn fine_of(percent: u128) -> (scale: u128)
    requires
        0 < percent < 0x1_0000_0000,
    ensures
        scale == fine(percent as int, 100),
        percent * scale < 0x4000_0000_0000_0000,
{
    let mut n: u128 = percent;
    let mut scale: u128 = 1;
    while n < 0x10_0000_0000_0000 * 100
        invariant
            0 < percent <= n < 0x4000_0000_0000_0000,
            0 < scale <= n,
            n == percent * scale,
            fine(percent as int, 100) == scale * fine(n as int, 100),
        decreases 0x20_0000_0000_0000 * 100 - n,
    {
        let ghost rest = fine(2 * n, 100);
        assert(fine(n as int, 100) == 2 * rest);
        assert(scale * (2 * rest) == (2 * scale) * rest) by (nonlinear_arith);
        assert(percent * (2 * scale) == 2 * (percent * scale)) by (nonlinear_arith);
        n = 2 * n;
        scale = 2 * scale;
    }
    assert(scale * 1 == scale);
    scale
}

/// `percent` hundredths of `amount` in double precision, to the nearest whole
/// number, halves up.
pub fn portion_of(amount: u128, percent: u32) -> (chips: u128)
    requires
        amount <= 0x2_0000_0000_0000_0000,
    ensures
        chips == portion(amount as int, percent as int),
{
    if percent == 0 {
        return 0;
    }
    let hundredths: u128 = percent as u128;
    let scale: u128 = fine_of(hundredths);
    proof {
        lemma_fine(hundredths as int, 100);
        assert(scale <= hundredths * scale) by (nonlinear_arith)
            requires
                hundredths >= 1,
                scale >= 0,
        ;
        lemma_nearest(hundredths * scale, 100);
    }
    let part: u128 = nearest_of(hundredths * scale, 100);
    let start: u128 = double_of(amount);
    assert(0 <= start * part <= 0x4_0000_0000_0000_0000 * 0x100_0000_0000_0000) by (nonlinear_arith)
        requires
            0 <= start <= 0x4_0000_0000_0000_0000,
            0 <= part <= 0x100_0000_0000_0000,
    ;
    let product: u128 = double_of(start * part);
    (2 * product + scale) / (2 * scale)
}

/// A whole number in double precision is within its last digit of itself.
pub proof fn lemma_double_near(n: int)
    requires
        0 <= n,
    ensures
        -n <= 0x20_0000_0000_0000 * (double(n) - n) <= n,
{
    let d = coarse(n, 1);
    lemma_coarse(n, 1);
    let near = nearest(n, d);
    let (whole, rest) = (n / d, n % d);
    vstd::arithmetic::div_mod::lemma_fundamental_div_mod(n, d);
    vstd::arithmetic::div_mod::lemma_mod_bound(n, d);
    assert((whole + 1) * d == whole * d + d && whole * d == d * whole) by (nonlinear_arith);
    if n < 0x20_0000_0000_0000 {
        assert(d == 1);
        assert(near * 1 == near);
    } else {
        lemma_coarse_bounds(n, 1);
    }
}

/// So many hundredths of a moderate amount are rounded to the nearest whole
/// number: a hundred times it is at most half a hundred from what they are.
pub proof fn law_portions_are_to_the_nearest(amount: int, percent: int)
    requires
        0 <= amount,
        0 <= percent,
        amount * percent <= 0x4000_0000_0000,
        amount <= 0x4000_0000_0000,
    ensures
        -50 <= 100 * portion(amount, percent) - amount * percent <= 50,
{
    if percent <= 0 {
        assert(amount * percent == 0) by (nonlinear_arith)
            requires
                percent == 0,
        ;
    } else {
        let scale = fine(percent, 100);
        lemma_fine(percent, 100);
        let scaled = percent * scale;
        let part = nearest(scaled, 100);
        assert(-50 <= 100 * part - scaled <= 50);
        assert(double(amount) == amount) by {
            assert(coarse(amount, 1) == 1);
            lemma_nearest(amount, 1);
            assert(amount * 1 == amount);
        }
        assert(part >= 0);
        let exact = amount * part;
        assert(exact >= 0) by (nonlinear_arith)
            requires
                exact == amount * part,
                0 <= amount,
                0 <= part,
        ;
        lemma_double_near(exact);
        let product = double(exact);
        let result = (2 * product + scale) / (2 * scale);
        vstd::arithmetic::div_mod::lemma_fundamental_div_mod(2 * product + scale, 2 * scale);
        vstd::arithmetic::div_mod::lemma_mod_bound(2 * product + scale, 2 * scale);
        let whole = amount * percent;
        let goal = whole * scale;
        assert(goal == amount * scaled) by (nonlinear_arith)
            requires
                goal == whole * scale,
                whole == amount * percent,
                scaled == percent * scale,
        ;
        // How far a hundred times the product is from what it stands for.
        assert(-(50 * amount) <= 100 * exact - goal <= 50 * amount) by (nonlinear_arith)
            requires
                goal == amount * scaled,
                exact == amount * part,
                -50 <= 100 * part - scaled <= 50,
                0 <= amount,
        ;
        assert(0x20_0000_0000_0000 * (50 * amount) <= goal) by (nonlinear_arith)
            requires
                goal == amount * scaled,
                0x20_0000_0000_0000 * 50 <= scaled,
                0 <= amount,
        ;
        assert(0 <= goal <= 0x4000_0000_0000 * scale) by (nonlinear_arith)
            requires
                goal == whole * scale,
                0 <= whole <= 0x4000_0000_0000,
                1 <= scale,
        ;
        assert(100 * exact <= 2 * goal);
        assert(-(2 * goal) <= 0x20_0000_0000_0000 * (100 * product - 100 * exact) <= 2 * goal);
        assert(-(3 * goal) <= 0x20_0000_0000_0000 * (100 * product - goal) <= 3 * goal);
        assert(-scale < 2 * (100 * product - goal) < scale);
        assert((2 * scale) * result == 2 * (result * scale)) by (nonlinear_arith);
        let gap = 100 * result - whole;
        assert(gap * scale == 100 * (result * scale) - goal) by (nonlinear_arith)
            requires
                gap == 100 * result - whole,
                goal == whole * scale,
        ;
        assert(-51 < gap < 51) by (nonlinear_arith)
            requires
                -51 * scale < gap * scale < 51 * scale,
                scale > 0,
        ;
    }
}

} // verus!
