//! Numbers of any size, as far as multiplying makes them.
use vstd::prelude::*;

verus! {

/// What the digit in a place is worth, in digits of 32 bits.
pub open spec fn unit(place: int) -> int
    decreases place,
{
    if place <= 0 {
        1
    } else {
        0x1_0000_0000 * unit(place - 1)
    }
}

/// The number that the first `n` digits stand for, the least first.
pub open spec fn value_to(digits: Seq<u32>, n: int) -> int
    decreases n,
{
    if n <= 0 {
        0
    } else {
        value_to(digits, n - 1) + digits[n - 1] * unit(n - 1)
    }
}

/// The number that digits stand for, the least first.
pub open spec fn value(digits: Seq<u32>) -> int {
    value_to(digits, digits.len() as int)
}

proof fn lemma_unit(place: int)
    ensures
        unit(place) > 0,
    decreases place,
{
    if place > 0 {
        lemma_unit(place - 1);
    }
}

proof fn lemma_value_of_push(digits: Seq<u32>, digit: u32, n: int)
    requires
        0 <= n <= digits.len(),
    ensures
        value_to(digits.push(digit), n) == value_to(digits, n),
    decreases n,
{
    if n > 0 {
        lemma_value_of_push(digits, digit, n - 1);
    }
}

proof fn lemma_value_pushed(digits: Seq<u32>, digit: u32)
    ensures
        value(digits.push(digit)) == value(digits) + digit * unit(digits.len() as int),
{
    lemma_value_of_push(digits, digit, digits.len() as int);
}

proof fn lemma_value_bounds(digits: Seq<u32>, n: int)
    requires
        0 <= n <= digits.len(),
    ensures
        value_to(digits, n) >= 0,
        forall|i: int| 0 <= i < n && #[trigger] digits[i] != 0 ==> value_to(digits, n) > 0,
        (forall|i: int| 0 <= i < n ==> #[trigger] digits[i] == 0) ==> value_to(digits, n) == 0,
    decreases n,
{
    if n > 0 {
        lemma_value_bounds(digits, n - 1);
        lemma_unit(n - 1);
        let (digit, worth) = (digits[n - 1] as int, unit(n - 1));
        assert(digit * worth >= 0 && (digit > 0 ==> digit * worth > 0) && (digit == 0 ==> digit * worth == 0))
            by (nonlinear_arith)
            requires
                digit >= 0,
                worth > 0,
        ;
    }
}

/// A number of any size.
#[derive(Debug, Clone, PartialEq, Eq)]
pub struct Natural {
    digits: Vec<u32>,
}

impl View for Natural {
    type V = int;

    closed spec fn view(&self) -> int {
        value(self.digits@)
    }
}

impl Natural {
    /// One.
    pub fn one() -> (number: Natural)
        ensures
            number@ == 1,
    {
        let mut digits: Vec<u32> = Vec::new();
        digits.push(1);
        proof {
            lemma_value_pushed(Seq::empty(), 1);
            assert(digits@ =~= Seq::empty().push(1u32));
        }
        Natural { digits }
    }

    /// The digits, each of 32 bits, the least first.
    pub fn digits(&self) -> (digits: &Vec<u32>)
        ensures
            value(digits@) == self@,
    {
        &self.digits
    }

    /// Whether the number is nothing.
    pub fn is_zero(&self) -> (zero: bool)
        ensures
            zero == (self@ == 0),
            self@ >= 0,
    {
        proof {
            lemma_value_bounds(self.digits@, self.digits@.len() as int);
        }
        let mut i: usize = 0;
        while i < self.digits.len()
            invariant
                i <= self.digits@.len(),
                forall|k: int| 0 <= k < i ==> #[trigger] self.digits@[k] == 0,
                forall|k: int| 0 <= k < self.digits@.len() && #[trigger] self.digits@[k] != 0 ==> self@ > 0,
                self@ >= 0,
            decreases self.digits@.len() - i,
        {
            if self.digits[i] != 0 {
                return false;
            }
            i = i + 1;
        }
        true
    }

    /// Nothing.
    pub fn zero() -> (number: Natural)
        ensures
            number@ == 0,
    {
        Natural { digits: Vec::new() }
    }

    /// The number times another.
    pub fn times(&self, factor: u64) -> (product: Natural)
        ensures
            product@ == self@ * factor,
    {
        self.times_plus(factor, 0)
    }

    /// The number times another, and a third on top.
    pub fn times_plus(&self, factor: u64, extra: u64) -> (product: Natural)
        ensures
            product@ == self@ * factor + extra,
    {
        let base: u128 = 0x1_0000_0000;
        let mut digits: Vec<u32> = Vec::new();
        let mut carry: u128 = extra as u128;
        let mut i: usize = 0;
        assert(value(digits@) + carry * unit(0) == value_to(self.digits@, 0) * factor + extra) by (nonlinear_arith)
            requires
                value(digits@) == 0,
                carry == extra,
                unit(0) == 1,
                value_to(self.digits@, 0) == 0,
        ;
        while i < self.digits.len()
            invariant
                i <= self.digits@.len(),
                digits@.len() == i,
                base == 0x1_0000_0000,
                carry <= 0x1_0000_0000_0000_0000,
                value(digits@) + carry * unit(i as int) == value_to(self.digits@, i as int) * factor + extra,
            decreases self.digits@.len() - i,
        {
            let digit: u128 = self.digits[i] as u128;
            let times: u128 = factor as u128;
            assert(0 <= digit * times <= 0xFFFF_FFFF * 0xFFFF_FFFF_FFFF_FFFF) by (nonlinear_arith)
                requires
                    0 <= digit <= 0xFFFF_FFFF,
                    0 <= times <= 0xFFFF_FFFF_FFFF_FFFF,
            ;
            let whole: u128 = digit * times + carry;
            let low: u32 = (whole % base) as u32;
            let next: u128 = whole / base;
            proof {
                lemma_value_pushed(digits@, low);
                let (w, so_far) = (unit(i as int), value_to(self.digits@, i as int));
                assert(unit(i + 1) == 0x1_0000_0000 * w);
                assert(low * w + next * (0x1_0000_0000 * w) == (digit * times) * w + carry * w) by (nonlinear_arith)
                    requires
                        low + next * 0x1_0000_0000 == digit * times + carry,
                ;
                assert((so_far + digit * w) * times == so_far * times + (digit * times) * w) by (nonlinear_arith);
            }
            digits.push(low);
            carry = next;
            i = i + 1;
        }
        while carry > 0
            invariant
                base == 0x1_0000_0000,
                value(digits@) + carry * unit(digits@.len() as int) == self@ * factor + extra,
            decreases carry,
        {
            let low: u32 = (carry % base) as u32;
            let next: u128 = carry / base;
            proof {
                lemma_value_pushed(digits@, low);
                let w = unit(digits@.len() as int);
                assert(unit(digits@.len() as int + 1) == 0x1_0000_0000 * w);
                assert(low * w + next * (0x1_0000_0000 * w) == carry * w) by (nonlinear_arith)
                    requires
                        low + next * 0x1_0000_0000 == carry,
                ;
            }
            digits.push(low);
            carry = next;
        }
        assert(carry * unit(digits@.len() as int) == 0) by (nonlinear_arith)
            requires
                carry == 0,
        ;
        Natural { digits }
    }

    /// The digit in a place.
    fn digit(&self, i: usize) -> (digit: u32)
        ensures
            digit == digit_at(self.digits@, i as int),
    {
        if i < self.digits.len() {
            self.digits[i]
        } else {
            0
        }
    }

    /// Whether the number is as large as another.
    pub fn at_least(&self, other: &Natural) -> (large: bool)
        ensures
            large == (self@ >= other@),
    {
        let mut i: usize = if self.digits.len() > other.digits.len() {
            self.digits.len()
        } else {
            other.digits.len()
        };
        let ghost (a, b) = (self.digits@, other.digits@);
        proof {
            lemma_wide(a, i as int);
            lemma_wide(b, i as int);
        }
        while i > 0
            invariant
                a == self.digits@,
                b == other.digits@,
                self@ - other@ == wide_to(a, i as int) - wide_to(b, i as int),
            decreases i,
        {
            i = i - 1;
            let (one, two): (u32, u32) = (self.digit(i), other.digit(i));
            proof {
                lemma_wide_bounds(a, i as int);
                lemma_wide_bounds(b, i as int);
                let w = unit(i as int);
                assert((one > two ==> one * w >= two * w + w) && (one < two ==> one * w + w <= two * w) && (one == two
                    ==> one * w == two * w)) by (nonlinear_arith)
                    requires
                        w > 0,
                ;
            }
            if one != two {
                return one > two;
            }
        }
        true
    }

    /// What is left of the number without another.
    pub fn minus(&self, other: &Natural) -> (rest: Natural)
        requires
            self@ >= other@,
        ensures
            rest@ == self@ - other@,
    {
        let size: usize = if self.digits.len() > other.digits.len() {
            self.digits.len()
        } else {
            other.digits.len()
        };
        let ghost (a, b) = (self.digits@, other.digits@);
        let mut digits: Vec<u32> = Vec::new();
        let mut owed: i128 = 0;
        let mut i: usize = 0;
        assert(owed * unit(0) == 0) by (nonlinear_arith)
            requires
                owed == 0,
        ;
        while i < size
            invariant
                i <= size,
                a == self.digits@,
                b == other.digits@,
                digits@.len() == i,
                owed == 0 || owed == 1,
                value(digits@) == wide_to(a, i as int) - wide_to(b, i as int) + owed * unit(i as int),
            decreases size - i,
        {
            let (one, two): (u32, u32) = (self.digit(i), other.digit(i));
            let rest: i128 = one as i128 - two as i128 - owed;
            let (low, next): (u32, i128) = if rest < 0 {
                ((rest + 0x1_0000_0000) as u32, 1)
            } else {
                (rest as u32, 0)
            };
            proof {
                lemma_value_pushed(digits@, low);
                let w = unit(i as int);
                assert(unit(i + 1) == 0x1_0000_0000 * w);
                assert(low * w == one * w - two * w - owed * w + next * (0x1_0000_0000 * w)) by (nonlinear_arith)
                    requires
                        low == one - two - owed + next * 0x1_0000_0000,
                ;
            }
            digits.push(low);
            owed = next;
            i = i + 1;
        }
        proof {
            lemma_wide(a, size as int);
            lemma_wide(b, size as int);
            lemma_value_below(digits@, size as int);
            let w = unit(size as int);
            assert(owed == 1 ==> owed * w == w) by (nonlinear_arith);
            assert(owed == 0 ==> owed * w == 0) by (nonlinear_arith);
        }
        Natural { digits }
    }
}

/// The digit in a place, and zero where there is none.
pub open spec fn digit_at(digits: Seq<u32>, i: int) -> u32 {
    if 0 <= i < digits.len() {
        digits[i]
    } else {
        0
    }
}

/// The number that the first `n` digits stand for, with zeros where there are
/// fewer.
spec fn wide_to(digits: Seq<u32>, n: int) -> int
    decreases n,
{
    if n <= 0 {
        0
    } else {
        wide_to(digits, n - 1) + digit_at(digits, n - 1) * unit(n - 1)
    }
}

proof fn lemma_wide(digits: Seq<u32>, n: int)
    requires
        0 <= n,
    ensures
        n <= digits.len() ==> wide_to(digits, n) == value_to(digits, n),
        n >= digits.len() ==> wide_to(digits, n) == value(digits),
    decreases n,
{
    if n > 0 {
        lemma_wide(digits, n - 1);
        if n > digits.len() {
            assert(0 * unit(n - 1) == 0);
        }
    }
}

proof fn lemma_wide_bounds(digits: Seq<u32>, n: int)
    requires
        0 <= n,
    ensures
        0 <= wide_to(digits, n) < unit(n),
    decreases n,
{
    if n > 0 {
        lemma_wide_bounds(digits, n - 1);
        let (digit, w) = (digit_at(digits, n - 1) as int, unit(n - 1));
        assert(0 <= digit * w <= 0xFFFF_FFFF * w) by (nonlinear_arith)
            requires
                0 <= digit <= 0xFFFF_FFFF,
                0 <= w,
        ;
    }
}

proof fn lemma_value_below(digits: Seq<u32>, n: int)
    requires
        digits.len() == n,
    ensures
        0 <= value(digits) < unit(n),
{
    lemma_wide(digits, n);
    lemma_wide_bounds(digits, n);
}

} // verus!
