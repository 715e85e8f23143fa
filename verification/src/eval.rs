//! Five-to-seven card hand evaluation.
//!
//! [`evaluate`] maps any 5, 6, or 7 card hand to a [`HandRank`] that compares
//! correctly against any other: `a > b` exactly when hand `a` beats hand `b`,
//! and `a == b` exactly when they split the pot.
//!
//! # The model
//!
//! A [`Value`] is a category with its tiebreak ranks. [`makes`] says which
//! values the cards of a hand can show, and the strength of a hand is the
//! greatest of them. A value is compared through its packed form, in which the
//! category outweighs the tiebreaks and each tiebreak outweighs the next.

use crate::bits;
use crate::card;
use crate::card::{Card, Rank};
use vstd::prelude::*;

verus! {

/// The nine hand categories, ordered worst to best.
#[derive(Debug, Clone, Copy, PartialEq, Eq, PartialOrd, Ord, Hash, Structural)]
pub enum Category {
    HighCard,
    Pair,
    TwoPair,
    ThreeOfAKind,
    Straight,
    Flush,
    FullHouse,
    FourOfAKind,
    StraightFlush,
}

impl Category {
    pub const ALL: [Category; 9] = [
        Category::HighCard,
        Category::Pair,
        Category::TwoPair,
        Category::ThreeOfAKind,
        Category::Straight,
        Category::Flush,
        Category::FullHouse,
        Category::FourOfAKind,
        Category::StraightFlush,
    ];

    /// The position of the category, from 0 for the worst to 8 for the best.
    pub open spec fn order(self) -> int {
        match self {
            Category::HighCard => 0,
            Category::Pair => 1,
            Category::TwoPair => 2,
            Category::ThreeOfAKind => 3,
            Category::Straight => 4,
            Category::Flush => 5,
            Category::FullHouse => 6,
            Category::FourOfAKind => 7,
            Category::StraightFlush => 8,
        }
    }

    /// The position of the category, from 0 for the worst to 8 for the best.
    pub fn index(self) -> (index: u8)
        ensures
            index == self.order(),
    {
        match self {
            Category::HighCard => 0,
            Category::Pair => 1,
            Category::TwoPair => 2,
            Category::ThreeOfAKind => 3,
            Category::Straight => 4,
            Category::Flush => 5,
            Category::FullHouse => 6,
            Category::FourOfAKind => 7,
            Category::StraightFlush => 8,
        }
    }

    /// The category in words.
    pub open spec fn words(self) -> Seq<char> {
        match self {
            Category::HighCard => "high card"@,
            Category::Pair => "pair"@,
            Category::TwoPair => "two pair"@,
            Category::ThreeOfAKind => "three of a kind"@,
            Category::Straight => "straight"@,
            Category::Flush => "flush"@,
            Category::FullHouse => "full house"@,
            Category::FourOfAKind => "four of a kind"@,
            Category::StraightFlush => "straight flush"@,
        }
    }

    pub fn name(self) -> (name: &'static str)
        ensures
            name@ == self.words(),
    {
        match self {
            Category::HighCard => "high card",
            Category::Pair => "pair",
            Category::TwoPair => "two pair",
            Category::ThreeOfAKind => "three of a kind",
            Category::Straight => "straight",
            Category::Flush => "flush",
            Category::FullHouse => "full house",
            Category::FourOfAKind => "four of a kind",
            Category::StraightFlush => "straight flush",
        }
    }

    /// The category in words.
    pub fn to_string(&self) -> (text: String)
        ensures
            text@ == self.words(),
    {
        String::from_str(self.name())
    }
}

/// A category with its tiebreak ranks, most significant first; the slots a
/// category does not use are zero.
pub struct Value {
    pub category: Category,
    pub first: int,
    pub second: int,
    pub third: int,
    pub fourth: int,
    pub fifth: int,
}

impl Value {
    /// The value as one number: the category above five 4-bit slots.
    pub open spec fn packed(self) -> int {
        self.category.order() * 0x100000 + self.first * 0x10000 + self.second * 0x1000 + self.third
            * 0x100 + self.fourth * 0x10 + self.fifth
    }

    /// Whether every slot holds a rank index.
    pub open spec fn in_range(self) -> bool {
        &&& 0 <= self.first < 13
        &&& 0 <= self.second < 13
        &&& 0 <= self.third < 13
        &&& 0 <= self.fourth < 13
        &&& 0 <= self.fifth < 13
    }
}

pub open spec fn value1(category: Category, a: int) -> Value {
    Value { category, first: a, second: 0, third: 0, fourth: 0, fifth: 0 }
}

pub open spec fn value2(category: Category, a: int, b: int) -> Value {
    Value { category, first: a, second: b, third: 0, fourth: 0, fifth: 0 }
}

pub open spec fn value3(category: Category, a: int, b: int, c: int) -> Value {
    Value { category, first: a, second: b, third: c, fourth: 0, fifth: 0 }
}

pub open spec fn value4(category: Category, a: int, b: int, c: int, d: int) -> Value {
    Value { category, first: a, second: b, third: c, fourth: d, fifth: 0 }
}

pub open spec fn value5(category: Category, a: int, b: int, c: int, d: int, e: int) -> Value {
    Value { category, first: a, second: b, third: c, fourth: d, fifth: e }
}

/// Whether the hand holds the card of rank index `r` and suit index `s`.
pub open spec fn held(hand: Set<Card>, r: int, s: int) -> bool {
    hand.contains(card::card_at(r, s))
}

pub open spec fn one(b: bool) -> int {
    if b {
        1
    } else {
        0
    }
}

/// How many cards of rank index `r` the hand holds.
pub open spec fn count(hand: Set<Card>, r: int) -> int {
    one(held(hand, r, 0)) + one(held(hand, r, 1)) + one(held(hand, r, 2)) + one(held(hand, r, 3))
}

/// How many cards of suit index `s` and a rank index below `k` the hand holds.
pub open spec fn suited(hand: Set<Card>, s: int, k: int) -> int
    decreases k,
{
    if k <= 0 {
        0
    } else {
        suited(hand, s, k - 1) + one(held(hand, k - 1, s))
    }
}

/// How many cards of a rank index below `k` the hand holds.
pub open spec fn ranked(hand: Set<Card>, k: int) -> int
    decreases k,
{
    if k <= 0 {
        0
    } else {
        ranked(hand, k - 1) + count(hand, k - 1)
    }
}

pub open spec fn is_rank(r: int) -> bool {
    0 <= r < 13
}

/// Whether rank `r` belongs to the straight topped by `high`. The five-high
/// straight runs from the five down through the two to the ace.
pub open spec fn in_straight(high: int, r: int) -> bool {
    if high == 3 {
        0 <= r <= 3 || r == 12
    } else {
        high - 4 <= r <= high
    }
}

/// Whether the hand holds a straight topped by `high`, in any suits.
pub open spec fn has_straight(hand: Set<Card>, high: int) -> bool {
    3 <= high < 13 && forall|r: int| is_rank(r) && in_straight(high, r) ==> #[trigger] count(hand, r) >= 1
}

/// Whether the hand holds a straight topped by `high` in suit `s`.
pub open spec fn has_straight_flush(hand: Set<Card>, s: int, high: int) -> bool {
    3 <= high < 13 && forall|r: int| is_rank(r) && in_straight(high, r) ==> #[trigger] held(hand, r, s)
}

/// Whether the five slots are ranks in strictly descending order.
pub open spec fn descending(v: Value) -> bool {
    12 >= v.first && v.first > v.second && v.second > v.third && v.third > v.fourth && v.fourth
        > v.fifth && v.fifth >= 0
}

/// Whether the hand holds five cards of suit `s` with the ranks in the slots.
pub open spec fn has_flush(hand: Set<Card>, s: int, v: Value) -> bool {
    &&& descending(v)
    &&& held(hand, v.first, s)
    &&& held(hand, v.second, s)
    &&& held(hand, v.third, s)
    &&& held(hand, v.fourth, s)
    &&& held(hand, v.fifth, s)
}

/// Whether five cards of the hand show the value.
pub open spec fn makes(hand: Set<Card>, v: Value) -> bool {
    match v.category {
        Category::StraightFlush => {
            &&& v == value1(v.category, v.first)
            &&& exists|s: int| 0 <= s < 4 && #[trigger] has_straight_flush(hand, s, v.first)
        },
        Category::FourOfAKind => {
            &&& v == value2(v.category, v.first, v.second)
            &&& is_rank(v.first)
            &&& is_rank(v.second)
            &&& v.second != v.first
            &&& count(hand, v.first) >= 4
            &&& count(hand, v.second) >= 1
        },
        Category::FullHouse => {
            &&& v == value2(v.category, v.first, v.second)
            &&& is_rank(v.first)
            &&& is_rank(v.second)
            &&& v.second != v.first
            &&& count(hand, v.first) >= 3
            &&& count(hand, v.second) >= 2
        },
        Category::Flush => exists|s: int| 0 <= s < 4 && #[trigger] has_flush(hand, s, v),
        Category::Straight => {
            &&& v == value1(v.category, v.first)
            &&& has_straight(hand, v.first)
        },
        Category::ThreeOfAKind => {
            &&& v == value3(v.category, v.first, v.second, v.third)
            &&& is_rank(v.first)
            &&& 12 >= v.second
            &&& v.second > v.third
            &&& v.third >= 0
            &&& v.second != v.first
            &&& v.third != v.first
            &&& count(hand, v.first) >= 3
            &&& count(hand, v.second) >= 1
            &&& count(hand, v.third) >= 1
        },
        Category::TwoPair => {
            &&& v == value3(v.category, v.first, v.second, v.third)
            &&& 12 >= v.first
            &&& v.first > v.second
            &&& v.second >= 0
            &&& is_rank(v.third)
            &&& v.third != v.first
            &&& v.third != v.second
            &&& count(hand, v.first) >= 2
            &&& count(hand, v.second) >= 2
            &&& count(hand, v.third) >= 1
        },
        Category::Pair => {
            &&& v == value4(v.category, v.first, v.second, v.third, v.fourth)
            &&& is_rank(v.first)
            &&& 12 >= v.second
            &&& v.second > v.third
            &&& v.third > v.fourth
            &&& v.fourth >= 0
            &&& v.second != v.first
            &&& v.third != v.first
            &&& v.fourth != v.first
            &&& count(hand, v.first) >= 2
            &&& count(hand, v.second) >= 1
            &&& count(hand, v.third) >= 1
            &&& count(hand, v.fourth) >= 1
        },
        Category::HighCard => {
            &&& descending(v)
            &&& count(hand, v.first) >= 1
            &&& count(hand, v.second) >= 1
            &&& count(hand, v.third) >= 1
            &&& count(hand, v.fourth) >= 1
            &&& count(hand, v.fifth) >= 1
        },
    }
}

/// Whether `best` is the greatest value, in packed form, the hand makes.
pub open spec fn is_best(hand: Set<Card>, best: int) -> bool {
    &&& exists|v: Value| #[trigger] makes(hand, v) && v.packed() == best
    &&& forall|v: Value| #[trigger] makes(hand, v) ==> v.packed() <= best
}

/// The strength of a hand: the greatest value its cards make.
pub open spec fn strength(hand: Set<Card>) -> int {
    choose|best: int| is_best(hand, best)
}

/// A hand has one best value.
pub proof fn lemma_best_unique(hand: Set<Card>, a: int, b: int)
    requires
        is_best(hand, a),
        is_best(hand, b),
    ensures
        a == b,
{
}

/// A value never fills a slot with anything but a rank.
pub proof fn lemma_made_in_range(hand: Set<Card>, v: Value)
    requires
        makes(hand, v),
    ensures
        v.in_range(),
{
}

proof fn lemma_suited_grows(hand: Set<Card>, s: int, j: int, k: int)
    requires
        j <= k,
    ensures
        0 <= suited(hand, s, j) <= suited(hand, s, k),
        j >= 0 ==> suited(hand, s, k) <= suited(hand, s, j) + (k - j),
    decreases k,
{
    if j < k && k > 0 {
        lemma_suited_grows(hand, s, j, k - 1);
    } else if k > 0 {
        lemma_suited_grows(hand, s, j - 1, k - 1);
    }
}

/// Counting a hand by suit or by rank comes to the same.
proof fn lemma_totals_agree(hand: Set<Card>, k: int)
    ensures
        ranked(hand, k) == suited(hand, 0, k) + suited(hand, 1, k) + suited(hand, 2, k) + suited(
            hand,
            3,
            k,
        ),
    decreases k,
{
    if k > 0 {
        lemma_totals_agree(hand, k - 1);
    }
}

/// Two ranks of a suit account for two of its cards.
proof fn lemma_two_of_suit(hand: Set<Card>, s: int, t: int, p: int)
    requires
        is_rank(t),
        is_rank(p),
        t != p,
    ensures
        suited(hand, s, 13) >= one(held(hand, t, s)) + one(held(hand, p, s)),
{
    if t < p {
        lemma_suited_grows(hand, s, t + 1, p);
        lemma_suited_grows(hand, s, 0, t);
        lemma_suited_grows(hand, s, p + 1, 13);
    } else {
        lemma_suited_grows(hand, s, p + 1, t);
        lemma_suited_grows(hand, s, 0, p);
        lemma_suited_grows(hand, s, t + 1, 13);
    }
}

/// Five cards of one suit among at most seven leave no room for four of a kind,
/// a full house, or a flush in another suit.
proof fn lemma_flush_excludes(hand: Set<Card>, s: int)
    requires
        0 <= s < 4,
        suited(hand, s, 13) >= 5,
        ranked(hand, 13) <= 7,
    ensures
        forall|t: int| is_rank(t) ==> #[trigger] count(hand, t) < 4,
        forall|t: int, p: int|
            is_rank(t) && is_rank(p) && t != p && #[trigger] count(hand, t) >= 3 ==> #[trigger] count(
                hand,
                p,
            ) < 2,
        forall|u: int| 0 <= u < 4 && u != s ==> #[trigger] suited(hand, u, 13) < 5,
{
    lemma_totals_agree(hand, 13);
    lemma_suited_grows(hand, 0, 0, 13);
    lemma_suited_grows(hand, 1, 0, 13);
    lemma_suited_grows(hand, 2, 0, 13);
    lemma_suited_grows(hand, 3, 0, 13);
    assert forall|t: int| is_rank(t) implies #[trigger] count(hand, t) < 4 by {
        let p = if t == 0 {
            1
        } else {
            0int
        };
        lemma_two_of_suit(hand, 0, t, p);
        lemma_two_of_suit(hand, 1, t, p);
        lemma_two_of_suit(hand, 2, t, p);
        lemma_two_of_suit(hand, 3, t, p);
    }
    assert forall|t: int, p: int|
        is_rank(t) && is_rank(p) && t != p && #[trigger] count(hand, t) >= 3 implies #[trigger] count(
        hand,
        p,
    ) < 2 by {
        lemma_two_of_suit(hand, 0, t, p);
        lemma_two_of_suit(hand, 1, t, p);
        lemma_two_of_suit(hand, 2, t, p);
        lemma_two_of_suit(hand, 3, t, p);
    }
}

/// Holding five ranks of a suit takes five cards of it.
proof fn lemma_flush_needs_five(hand: Set<Card>, s: int, v: Value)
    requires
        has_flush(hand, s, v),
    ensures
        suited(hand, s, 13) >= 5,
{
    lemma_suited_grows(hand, s, 0, v.fifth);
    lemma_suited_grows(hand, s, v.fifth + 1, v.fourth);
    lemma_suited_grows(hand, s, v.fourth + 1, v.third);
    lemma_suited_grows(hand, s, v.third + 1, v.second);
    lemma_suited_grows(hand, s, v.second + 1, v.first);
    lemma_suited_grows(hand, s, v.first + 1, 13);
}

/// A straight flush is a flush in its suit.
proof fn lemma_straight_flush_needs_five(hand: Set<Card>, s: int, high: int)
    requires
        has_straight_flush(hand, s, high),
    ensures
        suited(hand, s, 13) >= 5,
{
    let v = if high == 3 {
        value5(Category::Flush, 12, 3, 2, 1, 0)
    } else {
        value5(Category::Flush, high, high - 1, high - 2, high - 3, high - 4)
    };
    assert(held(hand, v.first, s));
    assert(held(hand, v.second, s));
    assert(held(hand, v.third, s));
    assert(held(hand, v.fourth, s));
    assert(held(hand, v.fifth, s));
    lemma_flush_needs_five(hand, s, v);
}

/// With no suit held five times, no flush of either kind is made.
proof fn lemma_no_flush(hand: Set<Card>, v: Value)
    requires
        forall|s: int| 0 <= s < 4 ==> #[trigger] suited(hand, s, 13) < 5,
        makes(hand, v),
    ensures
        v.category != Category::Flush,
        v.category != Category::StraightFlush,
{
    if v.category == Category::Flush {
        let s = choose|s: int| 0 <= s < 4 && #[trigger] has_flush(hand, s, v);
        lemma_flush_needs_five(hand, s, v);
    }
    if v.category == Category::StraightFlush {
        let s = choose|s: int| 0 <= s < 4 && #[trigger] has_straight_flush(hand, s, v.first);
        lemma_straight_flush_needs_five(hand, s, v.first);
    }
}

pub open spec fn at(r: int, x: int, a: int) -> int {
    if r == x {
        a
    } else {
        0
    }
}

/// A hand whose ranks are confined to four places holds no more than those
/// places allow.
proof fn lemma_confined(hand: Set<Card>, k: int, w: int, a: int, x: int, b: int, y: int, c: int, z: int, d: int)
    requires
        k <= 13,
        a >= 0,
        b >= 0,
        c >= 0,
        d >= 0,
        forall|r: int|
            is_rank(r) ==> #[trigger] count(hand, r) <= at(r, w, a) + at(r, x, b) + at(r, y, c) + at(
                r,
                z,
                d,
            ),
    ensures
        ranked(hand, k) <= (if w < k {
            a
        } else {
            0
        }) + (if x < k {
            b
        } else {
            0
        }) + (if y < k {
            c
        } else {
            0
        }) + (if z < k {
            d
        } else {
            0
        }),
    decreases k,
{
    if k > 0 {
        lemma_confined(hand, k - 1, w, a, x, b, y, c, z, d);
        assert(count(hand, k - 1) <= at(k - 1, w, a) + at(k - 1, x, b) + at(k - 1, y, c) + at(
            k - 1,
            z,
            d,
        ));
    }
}

/// The greatest of the four conditions a branch of the evaluation settles: the
/// hand has five to seven cards and no suit held five times.
pub open spec fn unsuited(hand: Set<Card>) -> bool {
    &&& 5 <= ranked(hand, 13)
    &&& forall|s: int| 0 <= s < 4 ==> #[trigger] suited(hand, s, 13) < 5
}

proof fn lemma_straight_flush_best(hand: Set<Card>, s: int, high: int)
    requires
        0 <= s < 4,
        ranked(hand, 13) <= 7,
        has_straight_flush(hand, s, high),
        forall|h: int| h > high ==> !#[trigger] has_straight_flush(hand, s, h),
    ensures
        is_best(hand, value1(Category::StraightFlush, high).packed()),
{
    let best = value1(Category::StraightFlush, high);
    assert(makes(hand, best));
    lemma_straight_flush_needs_five(hand, s, high);
    lemma_flush_excludes(hand, s);
    assert forall|v: Value| #[trigger] makes(hand, v) implies v.packed() <= best.packed() by {
        lemma_made_in_range(hand, v);
        if v.category == Category::StraightFlush {
            let u = choose|u: int| 0 <= u < 4 && #[trigger] has_straight_flush(hand, u, v.first);
            lemma_straight_flush_needs_five(hand, u, v.first);
            assert(u == s);
        }
    }
}

proof fn lemma_flush_best(hand: Set<Card>, s: int, best: Value)
    requires
        0 <= s < 4,
        ranked(hand, 13) <= 7,
        best.category == Category::Flush,
        has_flush(hand, s, best),
        forall|h: int| !#[trigger] has_straight_flush(hand, s, h),
        forall|r: int|
            is_rank(r) && #[trigger] held(hand, r, s) ==> r == best.first || r == best.second || r
                == best.third || r == best.fourth || r == best.fifth || r < best.fifth,
    ensures
        is_best(hand, best.packed()),
{
    assert(makes(hand, best));
    lemma_flush_needs_five(hand, s, best);
    lemma_flush_excludes(hand, s);
    assert forall|v: Value| #[trigger] makes(hand, v) implies v.packed() <= best.packed() by {
        lemma_made_in_range(hand, v);
        if v.category == Category::StraightFlush {
            let u = choose|u: int| 0 <= u < 4 && #[trigger] has_straight_flush(hand, u, v.first);
            lemma_straight_flush_needs_five(hand, u, v.first);
            assert(u == s);
        }
        if v.category == Category::Flush {
            let u = choose|u: int| 0 <= u < 4 && #[trigger] has_flush(hand, u, v);
            lemma_flush_needs_five(hand, u, v);
            assert(u == s);
        }
    }
}

proof fn lemma_quads_best(hand: Set<Card>, quad: int, kicker: int)
    requires
        unsuited(hand),
        is_rank(quad),
        is_rank(kicker),
        quad != kicker,
        count(hand, quad) == 4,
        count(hand, kicker) >= 1,
        forall|r: int| is_rank(r) && #[trigger] count(hand, r) >= 4 ==> r <= quad,
        forall|r: int| is_rank(r) && r != quad && #[trigger] count(hand, r) >= 1 ==> r <= kicker,
    ensures
        is_best(hand, value2(Category::FourOfAKind, quad, kicker).packed()),
{
    let best = value2(Category::FourOfAKind, quad, kicker);
    assert(makes(hand, best));
    assert forall|v: Value| #[trigger] makes(hand, v) implies v.packed() <= best.packed() by {
        lemma_made_in_range(hand, v);
        lemma_no_flush(hand, v);
    }
}

proof fn lemma_full_house_best(hand: Set<Card>, trip: int, pair: int)
    requires
        unsuited(hand),
        is_rank(trip),
        is_rank(pair),
        trip != pair,
        count(hand, trip) >= 3,
        count(hand, pair) >= 2,
        forall|r: int| is_rank(r) ==> #[trigger] count(hand, r) < 4,
        forall|r: int| is_rank(r) && #[trigger] count(hand, r) >= 3 ==> r <= trip,
        forall|r: int| is_rank(r) && r != trip && #[trigger] count(hand, r) >= 2 ==> r <= pair,
    ensures
        is_best(hand, value2(Category::FullHouse, trip, pair).packed()),
{
    let best = value2(Category::FullHouse, trip, pair);
    assert(makes(hand, best));
    assert forall|v: Value| #[trigger] makes(hand, v) implies v.packed() <= best.packed() by {
        lemma_made_in_range(hand, v);
        lemma_no_flush(hand, v);
    }
}

/// No four of a kind and no full house.
pub open spec fn unfilled(hand: Set<Card>) -> bool {
    &&& forall|r: int| is_rank(r) ==> #[trigger] count(hand, r) < 4
    &&& forall|t: int, p: int|
        is_rank(t) && is_rank(p) && t != p && #[trigger] count(hand, t) >= 3 ==> #[trigger] count(
            hand,
            p,
        ) < 2
}

proof fn lemma_straight_best(hand: Set<Card>, high: int)
    requires
        unsuited(hand),
        unfilled(hand),
        has_straight(hand, high),
        forall|h: int| h > high ==> !#[trigger] has_straight(hand, h),
    ensures
        is_best(hand, value1(Category::Straight, high).packed()),
{
    let best = value1(Category::Straight, high);
    assert(makes(hand, best));
    assert forall|v: Value| #[trigger] makes(hand, v) implies v.packed() <= best.packed() by {
        lemma_made_in_range(hand, v);
        lemma_no_flush(hand, v);
    }
}

proof fn lemma_trips_best(hand: Set<Card>, trip: int, k1: int, k2: int)
    requires
        unsuited(hand),
        forall|h: int| !#[trigger] has_straight(hand, h),
        is_rank(trip),
        count(hand, trip) == 3,
        forall|r: int| is_rank(r) && r != trip ==> #[trigger] count(hand, r) <= 1,
        12 >= k1,
        k1 > k2,
        k2 >= 0,
        k1 != trip,
        k2 != trip,
        count(hand, k1) >= 1,
        count(hand, k2) >= 1,
        forall|r: int|
            is_rank(r) && r != trip && #[trigger] count(hand, r) >= 1 ==> r == k1 || r == k2 || r < k2,
    ensures
        is_best(hand, value3(Category::ThreeOfAKind, trip, k1, k2).packed()),
{
    let best = value3(Category::ThreeOfAKind, trip, k1, k2);
    assert(makes(hand, best));
    assert forall|v: Value| #[trigger] makes(hand, v) implies v.packed() <= best.packed() by {
        lemma_made_in_range(hand, v);
        lemma_no_flush(hand, v);
    }
}

proof fn lemma_two_pair_best(hand: Set<Card>, hi: int, lo: int, kicker: int)
    requires
        unsuited(hand),
        forall|h: int| !#[trigger] has_straight(hand, h),
        forall|r: int| is_rank(r) ==> #[trigger] count(hand, r) < 3,
        12 >= hi,
        hi > lo,
        lo >= 0,
        is_rank(kicker),
        kicker != hi,
        kicker != lo,
        count(hand, hi) >= 2,
        count(hand, lo) >= 2,
        count(hand, kicker) >= 1,
        forall|r: int| is_rank(r) && #[trigger] count(hand, r) >= 2 ==> r == hi || r <= lo,
        forall|r: int| is_rank(r) && #[trigger] count(hand, r) >= 2 ==> r <= hi,
        forall|r: int|
            is_rank(r) && r != hi && r != lo && #[trigger] count(hand, r) >= 1 ==> r <= kicker,
    ensures
        is_best(hand, value3(Category::TwoPair, hi, lo, kicker).packed()),
{
    let best = value3(Category::TwoPair, hi, lo, kicker);
    assert(makes(hand, best));
    assert forall|v: Value| #[trigger] makes(hand, v) implies v.packed() <= best.packed() by {
        lemma_made_in_range(hand, v);
        lemma_no_flush(hand, v);
    }
}

proof fn lemma_pair_best(hand: Set<Card>, pair: int, k1: int, k2: int, k3: int)
    requires
        unsuited(hand),
        forall|h: int| !#[trigger] has_straight(hand, h),
        is_rank(pair),
        count(hand, pair) == 2,
        forall|r: int| is_rank(r) && r != pair ==> #[trigger] count(hand, r) <= 1,
        12 >= k1,
        k1 > k2,
        k2 > k3,
        k3 >= 0,
        k1 != pair,
        k2 != pair,
        k3 != pair,
        count(hand, k1) >= 1,
        count(hand, k2) >= 1,
        count(hand, k3) >= 1,
        forall|r: int|
            is_rank(r) && r != pair && #[trigger] count(hand, r) >= 1 ==> r == k1 || r == k2 || r == k3
                || r < k3,
    ensures
        is_best(hand, value4(Category::Pair, pair, k1, k2, k3).packed()),
{
    let best = value4(Category::Pair, pair, k1, k2, k3);
    assert(makes(hand, best));
    assert forall|v: Value| #[trigger] makes(hand, v) implies v.packed() <= best.packed() by {
        lemma_made_in_range(hand, v);
        lemma_no_flush(hand, v);
    }
}

proof fn lemma_high_card_best(hand: Set<Card>, best: Value)
    requires
        unsuited(hand),
        forall|h: int| !#[trigger] has_straight(hand, h),
        forall|r: int| is_rank(r) ==> #[trigger] count(hand, r) <= 1,
        best.category == Category::HighCard,
        descending(best),
        count(hand, best.first) >= 1,
        count(hand, best.second) >= 1,
        count(hand, best.third) >= 1,
        count(hand, best.fourth) >= 1,
        count(hand, best.fifth) >= 1,
        forall|r: int|
            is_rank(r) && #[trigger] count(hand, r) >= 1 ==> r == best.first || r == best.second || r
                == best.third || r == best.fourth || r == best.fifth || r < best.fifth,
    ensures
        is_best(hand, best.packed()),
{
    assert(makes(hand, best));
    assert forall|v: Value| #[trigger] makes(hand, v) implies v.packed() <= best.packed() by {
        lemma_made_in_range(hand, v);
        lemma_no_flush(hand, v);
    }
}

/// The strength of an evaluated hand. Higher is better; equal values tie.
#[derive(Debug, Clone, Copy, PartialEq, Eq, PartialOrd, Ord, Hash, Structural)]
pub struct HandRank {
    packed: u32,
}

impl View for HandRank {
    type V = int;

    /// The packed value.
    closed spec fn view(&self) -> int {
        self.packed as int
    }
}

impl HandRank {
    #[verifier::type_invariant]
    spec fn is_value(self) -> bool {
        exists|v: Value| #[trigger] v.in_range() && v.packed() == self.packed
    }

    /// The lowest possible value, below every real hand. Useful as a fold value
    /// or as the identity when taking a maximum.
    pub fn worst() -> (rank: HandRank)
        ensures
            rank@ == 0,
    {
        proof {
            assert(value1(Category::HighCard, 0).in_range());
        }
        HandRank { packed: 0 }
    }

    /// Packs a category and its tiebreak ranks, most significant first; the
    /// ranks that are not given count as zero.
    fn pack(category: Category, ranks: &[u8]) -> (rank: HandRank)
        requires
            ranks@.len() <= 5,
            forall|i: int| 0 <= i < ranks@.len() ==> #[trigger] ranks@[i] < 13,
        ensures
            rank@ == value_of(category, ranks@).packed(),
    {
        let first: u32 = slot(ranks, 0);
        let second: u32 = slot(ranks, 1);
        let third: u32 = slot(ranks, 2);
        let fourth: u32 = slot(ranks, 3);
        let fifth: u32 = slot(ranks, 4);
        proof {
            assert(value_of(category, ranks@).in_range());
        }
        HandRank {
            packed: (category.index() as u32) * 0x100000 + first * 0x10000 + second * 0x1000 + third
                * 0x100 + fourth * 0x10 + fifth,
        }
    }

    pub fn category(self) -> (category: Category)
        ensures
            category.order() == self@ / 0x100000,
    {
        proof {
            use_type_invariant(&self);
        }
        match self.packed / 0x100000 {
            0 => Category::HighCard,
            1 => Category::Pair,
            2 => Category::TwoPair,
            3 => Category::ThreeOfAKind,
            4 => Category::Straight,
            5 => Category::Flush,
            6 => Category::FullHouse,
            7 => Category::FourOfAKind,
            _ => Category::StraightFlush,
        }
    }

    /// The raw packed value. Comparable, and compact enough to store in solver
    /// tables.
    pub fn to_bits(self) -> (bits: u32)
        ensures
            bits == self@,
    {
        self.packed
    }

    /// The tiebreak ranks, most significant first, with the zero padding.
    fn slots(self) -> (slots: [u8; 5])
        ensures
            forall|i: int| 0 <= i < 5 ==> #[trigger] slots@[i] < 13,
            forall|v: Value|
                #[trigger] v.in_range() && v.packed() == self@ ==> slots@[0] == v.first && slots@[1]
                    == v.second && slots@[2] == v.third && slots@[3] == v.fourth && slots@[4] == v.fifth,
    {
        proof {
            use_type_invariant(&self);
        }
        let above_fifth: u32 = self.packed / 16;
        let above_fourth: u32 = above_fifth / 16;
        let above_third: u32 = above_fourth / 16;
        let above_second: u32 = above_third / 16;
        proof {
            assert forall|v: Value| #[trigger] v.in_range() && v.packed() == self@ implies self.packed % 16
                == v.fifth && above_fifth % 16 == v.fourth && above_fourth % 16 == v.third && above_third
                % 16 == v.second && above_second % 16 == v.first by {
                lemma_unpack(v);
            }
            let v = choose|v: Value| #[trigger] v.in_range() && v.packed() == self.packed;
            assert(v.in_range() && v.packed() == self@);
        }
        [
            (above_second % 16) as u8,
            (above_third % 16) as u8,
            (above_fourth % 16) as u8,
            (above_fifth % 16) as u8,
            (self.packed % 16) as u8,
        ]
    }
}

impl Category {
    /// How many of the slots the category uses.
    pub open spec fn used(self) -> int {
        match self {
            Category::HighCard => 5,
            Category::Flush => 5,
            Category::Pair => 4,
            Category::TwoPair => 3,
            Category::ThreeOfAKind => 3,
            Category::FullHouse => 2,
            Category::FourOfAKind => 2,
            Category::Straight => 1,
            Category::StraightFlush => 1,
        }
    }

    fn used_slots(self) -> (used: usize)
        ensures
            used == self.used(),
    {
        match self {
            Category::HighCard | Category::Flush => 5,
            Category::Pair => 4,
            Category::TwoPair | Category::ThreeOfAKind => 3,
            Category::FullHouse | Category::FourOfAKind => 2,
            Category::Straight | Category::StraightFlush => 1,
        }
    }
}

/// The characters of the first `n` ranks of a list, with spaces between.
pub open spec fn ranks_text(ranks: Seq<int>, n: int) -> Seq<char>
    decreases n,
{
    if n <= 0 {
        seq![]
    } else if n == 1 {
        seq![card::rank_chars()[ranks[0]]]
    } else {
        ranks_text(ranks, n - 1) + " "@ + seq![card::rank_chars()[ranks[n - 1]]]
    }
}

impl Value {
    pub open spec fn slots(self) -> Seq<int> {
        seq![self.first, self.second, self.third, self.fourth, self.fifth]
    }

    /// The value in words, e.g. `full house (9 2)`.
    pub open spec fn text(self) -> Seq<char> {
        self.category.words() + " ("@ + ranks_text(self.slots(), self.category.used()) + ")"@
    }
}

impl HandRank {
    /// The category with its tiebreak ranks, e.g. `full house (9 2)`, and
    /// `(none)` for the worst rank.
    pub fn to_string(&self) -> (text: String)
        ensures
            self@ == 0 ==> text@ == "(none)"@,
            forall|v: Value| #[trigger] v.in_range() && v.packed() == self@ && self@ != 0 ==> text@ == v.text(),
    {
        if self.packed == 0 {
            return String::from_str("(none)");
        }
        let category = self.category();
        let slots = self.slots();
        let used: usize = category.used_slots();
        let ghost ranks: Seq<int> = slots@.map_values(|slot: u8| slot as int);
        let mut text = String::from_str(category.name());
        text.append(" (");
        let ghost head = text@;
        let mut i: usize = 0;
        while i < used
            invariant
                i <= used <= 5,
                ranks == slots@.map_values(|slot: u8| slot as int),
                forall|k: int| 0 <= k < 5 ==> #[trigger] slots@[k] < 13,
                text@ == head + ranks_text(ranks, i as int),
            decreases used - i,
        {
            if i > 0 {
                text.append(" ");
            }
            if let Some(rank) = Rank::from_index(slots[i]) {
                text.append(rank.text());
                assert(ranks[i as int] == slots@[i as int]);
                assert(rank.order() == ranks[i as int]);
            }
            assert(text@ =~= head + ranks_text(ranks, i + 1));
            i = i + 1;
        }
        text.append(")");
        proof {
            assert forall|v: Value| #[trigger] v.in_range() && v.packed() == self@ implies text@ == v.text() by {
                lemma_unpack(v);
                assert(v.slots() =~= ranks);
                assert(v.category == category);
            }
        }
        text
    }
}

/// The slots of a value are the digits of its packed form in base sixteen.
proof fn lemma_unpack(v: Value)
    requires
        v.in_range(),
    ensures
        v.packed() % 16 == v.fifth,
        v.packed() / 16 % 16 == v.fourth,
        v.packed() / 16 / 16 % 16 == v.third,
        v.packed() / 16 / 16 / 16 % 16 == v.second,
        v.packed() / 16 / 16 / 16 / 16 % 16 == v.first,
        v.packed() / 0x100000 == v.category.order(),
{
    let c = v.category.order();
    let p = v.packed();
    let p1 = c * 0x10000 + v.first * 0x1000 + v.second * 0x100 + v.third * 0x10 + v.fourth;
    assert(p == p1 * 16 + v.fifth);
    let p2 = c * 0x1000 + v.first * 0x100 + v.second * 0x10 + v.third;
    assert(p1 == p2 * 16 + v.fourth);
    let p3 = c * 0x100 + v.first * 0x10 + v.second;
    assert(p2 == p3 * 16 + v.third);
    let p4 = c * 0x10 + v.first;
    assert(p3 == p4 * 16 + v.second);
    assert(p / 16 == p1);
    assert(p1 / 16 == p2);
    assert(p2 / 16 == p3);
    assert(p3 / 16 == p4);
}

/// The slot at a position, or zero where the list is shorter.
pub open spec fn slot_spec(ranks: Seq<u8>, i: int) -> int {
    if i < ranks.len() {
        ranks[i] as int
    } else {
        0
    }
}

fn slot(ranks: &[u8], i: usize) -> (slot: u32)
    requires
        forall|j: int| 0 <= j < ranks@.len() ==> #[trigger] ranks@[j] < 13,
    ensures
        slot == slot_spec(ranks@, i as int),
        slot < 13,
{
    if i < ranks.len() {
        ranks[i] as u32
    } else {
        0
    }
}

/// The value of a category with a list of tiebreak ranks.
pub open spec fn value_of(category: Category, ranks: Seq<u8>) -> Value {
    value5(
        category,
        slot_spec(ranks, 0),
        slot_spec(ranks, 1),
        slot_spec(ranks, 2),
        slot_spec(ranks, 3),
        slot_spec(ranks, 4),
    )
}

/// Whether the mask holds every rank of the straight topped by `high`.
pub open spec fn mask_straight(mask: u16, high: int) -> bool {
    3 <= high < 13 && forall|r: u16| r < 13 && in_straight(high, r as int) ==> #[trigger] bits::bit16(mask, r)
}

/// The rank at the top of the best straight in `mask`, if any.
///
/// `mask` is a 13-bit set of present ranks. The ace-low wheel yields
/// [`Rank::Five`], since a five-high straight is what it makes.
fn straight_high(mask: u16) -> (high: Option<Rank>)
    ensures
        high matches Some(rank) ==> mask_straight(mask, rank.order()) && forall|h: int|
            h > rank.order() ==> !#[trigger] mask_straight(mask, h),
        high is None ==> forall|h: int| !#[trigger] mask_straight(mask, h),
{
    let mut high: u8 = 13;
    while high > 4
        invariant
            4 <= high <= 13,
            forall|h: int| h >= high ==> !#[trigger] mask_straight(mask, h),
        decreases high,
    {
        high = high - 1;
        let window: u16 = 0b11111u16 << ((high - 4) as u16);
        proof {
            bits::lemma_run16(mask, (high - 4) as u16);
        }
        if mask & window == window {
            assert(mask_straight(mask, high as int));
            return Rank::from_index(high);
        }
        proof {
            if mask_straight(mask, high as int) {
                assert(bits::bit16(mask, (high - 4) as u16));
                assert(bits::bit16(mask, (high - 3) as u16));
                assert(bits::bit16(mask, (high - 2) as u16));
                assert(bits::bit16(mask, (high - 1) as u16));
                assert(bits::bit16(mask, high as u16));
            }
        }
    }
    proof {
        bits::lemma_wheel16(mask);
    }
    if mask & 0x100F == 0x100F {
        assert(mask_straight(mask, 3));
        return Some(Rank::Five);
    }
    proof {
        if mask_straight(mask, 3) {
            assert(bits::bit16(mask, 0));
            assert(bits::bit16(mask, 1));
            assert(bits::bit16(mask, 2));
            assert(bits::bit16(mask, 3));
            assert(bits::bit16(mask, 12));
        }
    }
    None
}

/// Whether `ranks` lists the highest `n` ranks of `mask` in descending order,
/// or all of them where there are fewer.
pub open spec fn lists_top(mask: u16, n: int, ranks: Seq<u8>) -> bool {
    &&& ranks.len() <= n
    &&& forall|i: int| 0 <= i < ranks.len() ==> #[trigger] ranks[i] < 13 && bits::bit16(mask, ranks[i] as u16)
    &&& forall|i: int, j: int| 0 <= i < j < ranks.len() ==> #[trigger] ranks[i] > #[trigger] ranks[j]
    &&& forall|r: u16|
        r < 13 && #[trigger] bits::bit16(mask, r) ==> ranks.contains(r as u8) || (ranks.len() == n && (
        ranks.len() > 0 ==> r < ranks.last()))
}

/// The highest `n` ranks present in `mask`, descending; fewer than `n` only
/// when `mask` holds fewer.
fn top_ranks(mask: u16, n: usize) -> (ranks: Vec<u8>)
    ensures
        lists_top(mask, n as int, ranks@),
{
    let mut ranks: Vec<u8> = Vec::new();
    let mut rank: u8 = 13;
    while rank > 0 && ranks.len() < n
        invariant
            rank <= 13,
            ranks@.len() <= n,
            forall|i: int| 0 <= i < ranks@.len() ==> rank <= #[trigger] ranks@[i] < 13 && bits::bit16(mask, ranks@[i] as u16),
            forall|i: int, j: int| 0 <= i < j < ranks@.len() ==> #[trigger] ranks@[i] > #[trigger] ranks@[j],
            forall|r: u16| rank <= r < 13 && #[trigger] bits::bit16(mask, r) ==> ranks@.contains(r as u8),
        decreases rank,
    {
        rank = rank - 1;
        let ghost before = ranks@;
        let found = (mask >> (rank as u16)) & 1 != 0;
        proof {
            let shifted = mask >> (rank as u16);
            assert(shifted & 1 == 0 || shifted & 1 == 1) by (bit_vector);
        }
        if found {
            ranks.push(rank);
        }
        proof {
            assert forall|r: u16| rank <= r < 13 && #[trigger] bits::bit16(mask, r) implies ranks@.contains(r as u8) by {
                if r == rank {
                    assert(ranks@[ranks@.len() - 1] == r as u8);
                } else {
                    assert(before.contains(r as u8));
                    let i = choose|i: int| 0 <= i < before.len() && before[i] == r as u8;
                    assert(ranks@[i] == r as u8);
                }
            }
        }
    }
    ranks
}

/// What the evaluation reads off the cards: how many of each rank, and for each
/// suit how many cards and which ranks.
struct Tally {
    ranks: [u8; 13],
    suits: [u8; 4],
    masks: [u16; 4],
}

impl Tally {
    spec fn counts(self, hand: Set<Card>) -> bool {
        tallies(self.ranks@, self.suits@, self.masks@, hand)
    }
}

/// Whether the counts and rank masks are those of the hand.
pub open spec fn tallies(ranks: Seq<u8>, suits: Seq<u8>, masks: Seq<u16>, hand: Set<Card>) -> bool {
    &&& forall|r: int| is_rank(r) ==> #[trigger] ranks[r] == count(hand, r)
    &&& forall|s: int| 0 <= s < 4 ==> #[trigger] suits[s] == suited(hand, s, 13)
    &&& forall|s: int, r: u16|
        #![trigger bits::bit16(masks[s], r)]
        0 <= s < 4 && r < 13 ==> bits::bit16(masks[s], r) == held(hand, r as int, s)
}

/// What one more card does to the counts of a hand.
proof fn lemma_add_card(hand: Set<Card>, card: Card, k: int)
    requires
        !hand.contains(card),
        k <= 13,
    ensures
        forall|r: int, s: int|
            is_rank(r) && 0 <= s < 4 ==> #[trigger] held(hand.insert(card), r, s) == (held(hand, r, s)
                || (r == card.rank_order() && s == card.suit_order())),
        forall|r: int|
            is_rank(r) ==> #[trigger] count(hand.insert(card), r) == count(hand, r) + one(
                r == card.rank_order(),
            ),
        forall|s: int|
            0 <= s < 4 ==> #[trigger] suited(hand.insert(card), s, k) == suited(hand, s, k) + one(
                s == card.suit_order() && card.rank_order() < k,
            ),
        ranked(hand.insert(card), k) == ranked(hand, k) + one(card.rank_order() < k),
    decreases k,
{
    card::lemma_order(card, card);
    let after = hand.insert(card);
    assert forall|r: int, s: int| is_rank(r) && 0 <= s < 4 implies #[trigger] held(after, r, s) == (
    held(hand, r, s) || (r == card.rank_order() && s == card.suit_order())) by {
        let other = card::card_at(r, s);
        assert(other.rank_order() == r && other.suit_order() == s);
    }
    assert forall|r: int| is_rank(r) implies #[trigger] count(after, r) == count(hand, r) + one(
        r == card.rank_order(),
    ) by {
        assert(!held(hand, card.rank_order(), card.suit_order()));
    }
    if k > 0 {
        lemma_add_card(hand, card, k - 1);
        assert forall|s: int| 0 <= s < 4 implies #[trigger] suited(after, s, k) == suited(hand, s, k)
            + one(s == card.suit_order() && card.rank_order() < k) by {
            assert(!held(hand, card.rank_order(), card.suit_order()));
            assert(suited(after, s, k - 1) == suited(hand, s, k - 1) + one(
                s == card.suit_order() && card.rank_order() < k - 1,
            ));
        }
    }
}

proof fn lemma_empty_hand(k: int)
    requires
        k <= 13,
    ensures
        forall|r: int| #[trigger] count(Set::<Card>::empty(), r) == 0,
        forall|s: int| #[trigger] suited(Set::<Card>::empty(), s, k) == 0,
        ranked(Set::<Card>::empty(), k) == 0,
    decreases k,
{
    if k > 0 {
        lemma_empty_hand(k - 1);
        assert forall|s: int| #[trigger] suited(Set::<Card>::empty(), s, k) == 0 by {
            assert(suited(Set::<Card>::empty(), s, k - 1) == 0);
        }
    }
}

fn tally(cards: &[Card]) -> (tally: Tally)
    requires
        cards@.len() <= 7,
        cards@.no_duplicates(),
    ensures
        tally.counts(cards@.to_set()),
        ranked(cards@.to_set(), 13) == cards@.len(),
{
    let mut ranks: [u8; 13] = [0, 0, 0, 0, 0, 0, 0, 0, 0, 0, 0, 0, 0];
    let mut suits: [u8; 4] = [0, 0, 0, 0];
    let mut masks: [u16; 4] = [0, 0, 0, 0];
    let mut i: usize = 0;
    let ghost mut hand: Set<Card> = Set::empty();
    proof {
        lemma_empty_hand(13);
        assert(cards@.take(0).to_set() =~= hand);
        assert forall|r: u16| r < 13 implies !(#[trigger] bits::bit16(0, r)) by {
            bits::lemma_set16(0, 0, r);
        }
    }
    while i < cards.len()
        invariant
            i <= cards@.len() <= 7,
            cards@.no_duplicates(),
            hand == cards@.take(i as int).to_set(),
            tallies(ranks@, suits@, masks@, hand),
            ranked(hand, 13) == i,
        decreases cards@.len() - i,
    {
        let card = cards[i];
        let r: usize = card.rank().index() as usize;
        let s: usize = card.suit().index() as usize;
        proof {
            card::lemma_take_set(cards@, i as int);
            lemma_add_card(hand, card, 13);
            lemma_suited_grows(hand, s as int, 0, 13);
        }
        let ghost before = hand;
        let ghost old_masks = masks@;
        assert(ranks@[r as int] == count(before, r as int));
        assert(suits@[s as int] == suited(before, s as int, 13));
        ranks[r] = ranks[r] + 1;
        suits[s] = suits[s] + 1;
        let shift: u16 = r as u16;
        masks[s] = masks[s] | (1u16 << shift);
        proof {
            hand = hand.insert(card);
            assert forall|q: int| is_rank(q) implies #[trigger] ranks@[q] == count(hand, q) by {
                assert(count(hand, q) == count(before, q) + one(q == card.rank_order()));
            }
            assert forall|t: int| 0 <= t < 4 implies #[trigger] suits@[t] == suited(hand, t, 13) by {
                assert(suited(hand, t, 13) == suited(before, t, 13) + one(t == card.suit_order()));
            }
            assert forall|t: int, q: u16|
                #![trigger bits::bit16(masks@[t], q)]
                0 <= t < 4 && q < 13 implies bits::bit16(masks@[t], q) == held(hand, q as int, t) by {
                assert(held(hand, q as int, t) == (held(before, q as int, t) || (q == r && t == s)));
                bits::lemma_set16(old_masks[t], shift, q);
                assert(bits::bit16(old_masks[t], q) == held(before, q as int, t));
            }
        }
        i = i + 1;
    }
    assert(cards@.take(i as int) =~= cards@);
    Tally { ranks, suits, masks }
}

/// Whether `a` and `b` are the two highest ranks, from `low` up, that the hand
/// holds exactly `n` times.
pub open spec fn top_two(hand: Set<Card>, n: int, low: int, a: Option<u8>, b: Option<u8>) -> bool {
    match a {
        None => b is None && forall|r: int| low <= r < 13 ==> #[trigger] count(hand, r) != n,
        Some(x) => {
            &&& low <= x < 13
            &&& count(hand, x as int) == n
            &&& match b {
                None => forall|r: int| low <= r < 13 && #[trigger] count(hand, r) == n ==> r == x,
                Some(y) => {
                    &&& low <= y < x
                    &&& count(hand, y as int) == n
                    &&& forall|r: int|
                        low <= r < 13 && #[trigger] count(hand, r) == n ==> r == x || r <= y
                },
            }
        },
    }
}

/// The ranks of a hand sorted by how often they occur.
struct Groups {
    quad: Option<u8>,
    trip: Option<u8>,
    second_trip: Option<u8>,
    pair: Option<u8>,
    second_pair: Option<u8>,
    present: u16,
}

impl Groups {
    spec fn describes(self, hand: Set<Card>) -> bool {
        &&& top_two(hand, 4, 0, self.quad, None) || (self.quad is Some && is_rank(self.quad->0 as int)
            && count(hand, self.quad->0 as int) == 4 && forall|r: int|
            is_rank(r) && #[trigger] count(hand, r) == 4 ==> r <= self.quad->0)
        &&& top_two(hand, 3, 0, self.trip, self.second_trip)
        &&& top_two(hand, 2, 0, self.pair, self.second_pair)
        &&& forall|r: u16| r < 13 ==> #[trigger] bits::bit16(self.present, r) == (count(hand, r as int) >= 1)
    }
}

fn note(first: &mut Option<u8>, second: &mut Option<u8>, rank: u8, hand: Ghost<Set<Card>>, n: Ghost<int>)
    requires
        rank < 13,
        top_two(hand@, n@, rank + 1, *old(first), *old(second)),
        count(hand@, rank as int) == n@,
    ensures
        top_two(hand@, n@, rank as int, *final(first), *final(second)),
{
    match *first {
        None => {
            *first = Some(rank);
        },
        Some(_) => {
            if second.is_none() {
                *second = Some(rank);
            }
        },
    }
}

fn groups(ranks: &[u8; 13], hand: Ghost<Set<Card>>) -> (groups: Groups)
    requires
        forall|r: int| is_rank(r) ==> #[trigger] ranks@[r] == count(hand@, r),
    ensures
        groups.describes(hand@),
{
    let mut quad: Option<u8> = None;
    let mut second_quad: Option<u8> = None;
    let mut trip: Option<u8> = None;
    let mut second_trip: Option<u8> = None;
    let mut pair: Option<u8> = None;
    let mut second_pair: Option<u8> = None;
    let mut present: u16 = 0;
    let mut rank: u8 = 13;
    proof {
        assert forall|r: u16| r < 13 implies !(#[trigger] bits::bit16(0, r)) by {
            bits::lemma_set16(0, 0, r);
        }
    }
    while rank > 0
        invariant
            rank <= 13,
            forall|r: int| is_rank(r) ==> #[trigger] ranks@[r] == count(hand@, r),
            top_two(hand@, 4, rank as int, quad, second_quad),
            top_two(hand@, 3, rank as int, trip, second_trip),
            top_two(hand@, 2, rank as int, pair, second_pair),
            forall|r: u16|
                r < 13 ==> #[trigger] bits::bit16(present, r) == (r >= rank && count(hand@, r as int) >= 1),
        decreases rank,
    {
        rank = rank - 1;
        let times: u8 = ranks[rank as usize];
        assert(times == count(hand@, rank as int));
        if times == 4 {
            note(&mut quad, &mut second_quad, rank, hand, Ghost(4));
        }
        if times == 3 {
            note(&mut trip, &mut second_trip, rank, hand, Ghost(3));
        }
        if times == 2 {
            note(&mut pair, &mut second_pair, rank, hand, Ghost(2));
        }
        if times > 0 {
            let ghost before = present;
            let shift: u16 = rank as u16;
            present = present | (1u16 << shift);
            proof {
                assert forall|r: u16| r < 13 implies #[trigger] bits::bit16(present, r) == (r >= rank && count(
                    hand@,
                    r as int,
                ) >= 1) by {
                    bits::lemma_set16(before, shift, r);
                    assert(bits::bit16(before, r) == (r >= rank + 1 && count(hand@, r as int) >= 1));
                }
            }
        }
    }
    Groups { quad, trip, second_trip, pair, second_pair, present }
}

/// Whether `ranks` lists, in descending order, the highest `n` ranks the hand
/// holds outside `excluded`, or all of them where there are fewer.
pub open spec fn lists_kickers(hand: Set<Card>, excluded: Seq<u8>, n: int, ranks: Seq<u8>) -> bool {
    &&& ranks.len() <= n
    &&& forall|i: int|
        0 <= i < ranks.len() ==> #[trigger] ranks[i] < 13 && count(hand, ranks[i] as int) >= 1
            && !excluded.contains(ranks[i])
    &&& forall|i: int, j: int| 0 <= i < j < ranks.len() ==> #[trigger] ranks[i] > #[trigger] ranks[j]
    &&& forall|r: int|
        is_rank(r) && #[trigger] count(hand, r) >= 1 && !excluded.contains(r as u8) ==> ranks.contains(
            r as u8,
        ) || (ranks.len() == n && (ranks.len() > 0 ==> r < ranks.last()))
}

/// The highest `n` ranks of the hand outside `excluded`.
fn kickers(present: u16, excluded: &[u8], n: usize, hand: Ghost<Set<Card>>) -> (ranks: Vec<u8>)
    requires
        forall|i: int| 0 <= i < excluded@.len() ==> #[trigger] excluded@[i] < 13,
        forall|r: u16| r < 13 ==> #[trigger] bits::bit16(present, r) == (count(hand@, r as int) >= 1),
    ensures
        lists_kickers(hand@, excluded@, n as int, ranks@),
{
    let mut mask: u16 = present;
    let mut i: usize = 0;
    while i < excluded.len()
        invariant
            i <= excluded@.len(),
            forall|k: int| 0 <= k < excluded@.len() ==> #[trigger] excluded@[k] < 13,
            forall|r: u16|
                r < 13 ==> #[trigger] bits::bit16(mask, r) == (count(hand@, r as int) >= 1
                    && !excluded@.take(i as int).contains(r as u8)),
        decreases excluded@.len() - i,
    {
        let ghost before = mask;
        let shift: u16 = excluded[i] as u16;
        mask = mask & !(1u16 << shift);
        proof {
            let small = excluded@.take(i as int);
            let large = excluded@.take(i + 1);
            assert forall|r: u16| r < 13 implies #[trigger] bits::bit16(mask, r) == (count(hand@, r as int) >= 1
                && !large.contains(r as u8)) by {
                bits::lemma_set16(before, shift, r);
                assert(bits::bit16(before, r) == (count(hand@, r as int) >= 1 && !small.contains(r as u8)));
                assert(large =~= small.push(excluded@[i as int]));
                if small.contains(r as u8) {
                    let k = choose|k: int| 0 <= k < small.len() && small[k] == r as u8;
                    assert(large[k] == r as u8);
                }
                if large.contains(r as u8) && !small.contains(r as u8) {
                    let k = choose|k: int| 0 <= k < large.len() && large[k] == r as u8;
                    assert(k == i || small[k] == r as u8);
                }
                assert(large[i as int] == excluded@[i as int]);
            }
        }
        i = i + 1;
    }
    let ranks = top_ranks(mask, n);
    proof {
        assert(excluded@.take(excluded@.len() as int) =~= excluded@);
        assert forall|k: int| 0 <= k < ranks@.len() implies #[trigger] ranks@[k] < 13 && count(
            hand@,
            ranks@[k] as int,
        ) >= 1 && !excluded@.contains(ranks@[k]) by {
            assert(bits::bit16(mask, ranks@[k] as u16));
        }
        assert forall|r: int|
            is_rank(r) && #[trigger] count(hand@, r) >= 1 && !excluded@.contains(r as u8) implies ranks@.contains(
            r as u8,
        ) || (ranks@.len() == n && (ranks@.len() > 0 ==> r < ranks@.last())) by {
            assert(bits::bit16(mask, r as u16));
        }
    }
    ranks
}

/// The rank of a hand in which some suit is held five times.
fn evaluate_suited(tally: &Tally, s: usize, hand: Ghost<Set<Card>>) -> (rank: HandRank)
    requires
        s < 4,
        tally.counts(hand@),
        suited(hand@, s as int, 13) >= 5,
        ranked(hand@, 13) <= 7,
    ensures
        is_best(hand@, rank@),
{
    let mask: u16 = tally.masks[s];
    proof {
        assert forall|h: int| #[trigger] mask_straight(mask, h) == has_straight_flush(hand@, s as int, h) by {
            if has_straight_flush(hand@, s as int, h) {
                assert forall|r: u16| r < 13 && in_straight(h, r as int) implies #[trigger] bits::bit16(mask, r) by {
                    assert(held(hand@, r as int, s as int));
                }
            }
            if mask_straight(mask, h) {
                assert forall|r: int| is_rank(r) && in_straight(h, r) implies #[trigger] held(hand@, r, s as int) by {
                    assert(bits::bit16(mask, r as u16));
                }
            }
        }
    }
    match straight_high(mask) {
        Some(high) => {
            proof {
                assert(mask_straight(mask, high.order()));
                assert forall|h: int| h > high.order() implies !#[trigger] has_straight_flush(hand@, s as int, h) by {
                    assert(!mask_straight(mask, h));
                }
                lemma_straight_flush_best(hand@, s as int, high.order());
            }
            HandRank::pack(Category::StraightFlush, &[high.index()])
        },
        None => {
            let top = top_ranks(mask, 5);
            proof {
                if top@.len() < 5 {
                    lemma_few_of_suit(hand@, s as int, mask, top@, 13);
                }
                let best = value_of(Category::Flush, top@);
                assert(bits::bit16(mask, top@[0] as u16));
                assert(bits::bit16(mask, top@[1] as u16));
                assert(bits::bit16(mask, top@[2] as u16));
                assert(bits::bit16(mask, top@[3] as u16));
                assert(bits::bit16(mask, top@[4] as u16));
                assert(has_flush(hand@, s as int, best));
                assert forall|h: int| !#[trigger] has_straight_flush(hand@, s as int, h) by {
                    assert(!mask_straight(mask, h));
                }
                assert forall|r: int| is_rank(r) && #[trigger] held(hand@, r, s as int) implies r == best.first
                    || r == best.second || r == best.third || r == best.fourth || r == best.fifth || r
                    < best.fifth by {
                    assert(bits::bit16(mask, r as u16));
                }
                lemma_flush_best(hand@, s as int, best);
            }
            HandRank::pack(Category::Flush, top.as_slice())
        },
    }
}

/// A suit whose ranks are all listed holds no more cards than the list.
proof fn lemma_few_of_suit(hand: Set<Card>, s: int, mask: u16, top: Seq<u8>, k: int)
    requires
        0 <= s < 4,
        0 <= k <= 13,
        top.len() < 5,
        lists_top(mask, 5, top),
        forall|r: u16| r < 13 ==> #[trigger] bits::bit16(mask, r) == held(hand, r as int, s),
    ensures
        suited(hand, s, k) <= listed_below(top, k),
        listed_below(top, k) <= top.len(),
    decreases k,
{
    if k > 0 {
        lemma_few_of_suit(hand, s, mask, top, k - 1);
        if held(hand, k - 1, s) {
            assert(bits::bit16(mask, (k - 1) as u16));
            assert(top.contains((k - 1) as u8));
        }
    }
}

/// How many of at most four listed ranks lie below `k`.
spec fn listed_below(top: Seq<u8>, k: int) -> int {
    one(top.len() > 0 && top[0] < k) + one(top.len() > 1 && top[1] < k) + one(
        top.len() > 2 && top[2] < k,
    ) + one(top.len() > 3 && top[3] < k)
}

/// A mask of the ranks present shows the straights of the hand.
proof fn lemma_present_straights(present: u16, hand: Set<Card>)
    requires
        forall|r: u16| r < 13 ==> #[trigger] bits::bit16(present, r) == (count(hand, r as int) >= 1),
    ensures
        forall|h: int| #[trigger] mask_straight(present, h) == has_straight(hand, h),
        forall|h: int| #[trigger] has_straight(hand, h) == mask_straight(present, h),
{
    assert forall|h: int| #[trigger] mask_straight(present, h) == has_straight(hand, h) by {
        if has_straight(hand, h) {
            assert forall|r: u16| r < 13 && in_straight(h, r as int) implies #[trigger] bits::bit16(present, r) by {
                assert(count(hand, r as int) >= 1);
            }
        }
        if mask_straight(present, h) {
            assert forall|r: int| is_rank(r) && in_straight(h, r) implies #[trigger] count(hand, r) >= 1 by {
                assert(bits::bit16(present, r as u16));
            }
        }
    }
}

fn evaluate_quads(present: u16, quad: u8, hand: Ghost<Set<Card>>) -> (rank: HandRank)
    requires
        unsuited(hand@),
        forall|r: u16| r < 13 ==> #[trigger] bits::bit16(present, r) == (count(hand@, r as int) >= 1),
        quad < 13,
        count(hand@, quad as int) == 4,
        forall|r: int| is_rank(r) && #[trigger] count(hand@, r) >= 4 ==> r <= quad,
    ensures
        is_best(hand@, rank@),
{
    let excluded: [u8; 1] = [quad];
    let rest = kickers(present, &excluded, 1, hand);
    proof {
        assert(excluded@ =~= seq![quad]);
        assert(excluded@[0] == quad);
        if rest@.len() < 1 {
            assert forall|r: int| is_rank(r) implies #[trigger] count(hand@, r) <= at(r, quad as int, 4) + at(
                r,
                13,
                0,
            ) + at(r, 13, 0) + at(r, 13, 0) by {
                if r != quad && count(hand@, r) >= 1 {
                    lemma_kickers_confine(hand@, excluded@, 1, rest@, r);
                }
            }
            lemma_confined(hand@, 13, quad as int, 4, 13, 0, 13, 0, 13, 0);
        }
        assert forall|r: int| is_rank(r) && r != quad && #[trigger] count(hand@, r) >= 1 implies r
            <= rest@[0] by {
            lemma_kickers_confine(hand@, excluded@, 1, rest@, r);
        }
        assert(excluded@.contains(quad));
        lemma_quads_best(hand@, quad as int, rest@[0] as int);
    }
    let kicker: u8 = rest[0];
    HandRank::pack(Category::FourOfAKind, &[quad, kicker])
}

/// The rank of a hand in which no suit is held five times.
fn evaluate_unsuited(groups: &Groups, hand: Ghost<Set<Card>>) -> (rank: HandRank)
    requires
        groups.describes(hand@),
        unsuited(hand@),
    ensures
        is_best(hand@, rank@),
{
    let present: u16 = groups.present;
    if let Some(quad) = groups.quad {
        return evaluate_quads(present, quad, hand);
    }
    if let Some(trip) = groups.trip {
        let paired: Option<u8> = match (groups.second_trip, groups.pair) {
            (Some(t), Some(p)) => Some(if t > p {
                t
            } else {
                p
            }),
            (Some(t), None) => Some(t),
            (None, p) => p,
        };
        if let Some(pair) = paired {
            proof {
                lemma_full_house_best(hand@, trip as int, pair as int);
            }
            return HandRank::pack(Category::FullHouse, &[trip, pair]);
        }
    }
    proof {
        lemma_present_straights(present, hand@);
    }
    if let Some(high) = straight_high(present) {
        proof {
            lemma_straight_best(hand@, high.order());
        }
        return HandRank::pack(Category::Straight, &[high.index()]);
    }
    evaluate_plain(groups, hand)
}

/// The rank of a hand with no straight, no flush, and nothing better than three
/// of a kind.
fn evaluate_plain(groups: &Groups, hand: Ghost<Set<Card>>) -> (rank: HandRank)
    requires
        groups.describes(hand@),
        unsuited(hand@),
        unfilled(hand@),
        groups.quad is None,
        groups.trip is Some ==> groups.second_trip is None && groups.pair is None,
        forall|h: int| !#[trigger] has_straight(hand@, h),
    ensures
        is_best(hand@, rank@),
{
    if let Some(trip) = groups.trip {
        return evaluate_trips(groups.present, trip, hand);
    }
    match (groups.pair, groups.second_pair) {
        (Some(hi), Some(lo)) => evaluate_two_pair(groups.present, hi, lo, hand),
        (Some(pair), None) => evaluate_pair(groups.present, pair, hand),
        _ => evaluate_high_card(groups.present, hand),
    }
}

/// What the evaluation knows of a hand once everything above three of a kind is
/// ruled out.
spec fn plain(present: u16, hand: Set<Card>) -> bool {
    &&& unsuited(hand)
    &&& forall|h: int| !#[trigger] has_straight(hand, h)
    &&& forall|r: u16| r < 13 ==> #[trigger] bits::bit16(present, r) == (count(hand, r as int) >= 1)
}

/// Where the list of kickers is short, the hand is confined to it.
proof fn lemma_kickers_confine(hand: Set<Card>, excluded: Seq<u8>, n: int, rest: Seq<u8>, r: int)
    requires
        lists_kickers(hand, excluded, n, rest),
        n <= 5,
        is_rank(r),
        count(hand, r) >= 1,
        !excluded.contains(r as u8),
    ensures
        (rest.len() > 0 && r == rest[0]) || (rest.len() > 1 && r == rest[1]) || (rest.len() > 2 && r
            == rest[2]) || (rest.len() > 3 && r == rest[3]) || (rest.len() > 4 && r == rest[4]) || (
        rest.len() == n && (n > 0 ==> r < rest[n - 1])),
{
    if rest.contains(r as u8) {
        let i = choose|i: int| 0 <= i < rest.len() && rest[i] == r as u8;
        assert(i == 0 || i == 1 || i == 2 || i == 3 || i == 4);
    }
}

/// The rank in a place of the list, or one out of range where it is shorter.
spec fn place(rest: Seq<u8>, i: int) -> int {
    if i < rest.len() {
        rest[i] as int
    } else {
        13
    }
}

fn evaluate_trips(present: u16, trip: u8, hand: Ghost<Set<Card>>) -> (rank: HandRank)
    requires
        plain(present, hand@),
        trip < 13,
        count(hand@, trip as int) == 3,
        forall|r: int| is_rank(r) && r != trip ==> #[trigger] count(hand@, r) <= 1,
    ensures
        is_best(hand@, rank@),
{
    let excluded: [u8; 1] = [trip];
    let rest = kickers(present, &excluded, 2, hand);
    proof {
        assert(excluded@ =~= seq![trip]);
        lemma_trips_kickers(hand@, trip, rest@);
    }
    let first: u8 = rest[0];
    let second: u8 = rest[1];
    HandRank::pack(Category::ThreeOfAKind, &[trip, first, second])
}

proof fn lemma_trips_kickers(hand: Set<Card>, trip: u8, rest: Seq<u8>)
    requires
        unsuited(hand),
        forall|h: int| !#[trigger] has_straight(hand, h),
        trip < 13,
        count(hand, trip as int) == 3,
        forall|r: int| is_rank(r) && r != trip ==> #[trigger] count(hand, r) <= 1,
        lists_kickers(hand, seq![trip], 2, rest),
    ensures
        rest.len() == 2,
        rest[0] < 13,
        rest[1] < 13,
        is_best(hand, value3(Category::ThreeOfAKind, trip as int, rest[0] as int, rest[1] as int).packed()),
{
    let excluded = seq![trip];
    assert(excluded[0] == trip);
    if rest.len() < 2 {
        assert forall|r: int| is_rank(r) implies #[trigger] count(hand, r) <= at(r, trip as int, 3) + at(
            r,
            place(rest, 0),
            1,
        ) + at(r, 13, 0) + at(r, 13, 0) by {
            if r != trip && count(hand, r) >= 1 {
                lemma_kickers_confine(hand, excluded, 2, rest, r);
            }
        }
        lemma_confined(hand, 13, trip as int, 3, place(rest, 0), 1, 13, 0, 13, 0);
    }
    assert forall|r: int| is_rank(r) && r != trip && #[trigger] count(hand, r) >= 1 implies r == rest[0] || r
        == rest[1] || r < rest[1] by {
        lemma_kickers_confine(hand, excluded, 2, rest, r);
    }
    assert(excluded.contains(trip));
    lemma_trips_best(hand, trip as int, rest[0] as int, rest[1] as int);
}

fn evaluate_two_pair(present: u16, hi: u8, lo: u8, hand: Ghost<Set<Card>>) -> (rank: HandRank)
    requires
        plain(present, hand@),
        forall|r: int| is_rank(r) ==> #[trigger] count(hand@, r) < 3,
        top_two(hand@, 2, 0, Some(hi), Some(lo)),
    ensures
        is_best(hand@, rank@),
{
    let excluded: [u8; 2] = [hi, lo];
    let rest = kickers(present, &excluded, 1, hand);
    proof {
        assert(excluded@ =~= seq![hi, lo]);
        lemma_two_pair_kickers(hand@, hi, lo, rest@);
    }
    let kicker: u8 = rest[0];
    HandRank::pack(Category::TwoPair, &[hi, lo, kicker])
}

proof fn lemma_two_pair_kickers(hand: Set<Card>, hi: u8, lo: u8, rest: Seq<u8>)
    requires
        unsuited(hand),
        forall|h: int| !#[trigger] has_straight(hand, h),
        forall|r: int| is_rank(r) ==> #[trigger] count(hand, r) < 3,
        top_two(hand, 2, 0, Some(hi), Some(lo)),
        lists_kickers(hand, seq![hi, lo], 1, rest),
    ensures
        rest.len() == 1,
        rest[0] < 13,
        is_best(hand, value3(Category::TwoPair, hi as int, lo as int, rest[0] as int).packed()),
{
    let excluded = seq![hi, lo];
    assert(excluded[0] == hi);
    assert(excluded[1] == lo);
    if rest.len() < 1 {
        assert forall|r: int| is_rank(r) implies #[trigger] count(hand, r) <= at(r, hi as int, 2) + at(
            r,
            lo as int,
            2,
        ) + at(r, 13, 0) + at(r, 13, 0) by {
            if r != hi && r != lo && count(hand, r) >= 1 {
                lemma_kickers_confine(hand, excluded, 1, rest, r);
            }
        }
        lemma_confined(hand, 13, hi as int, 2, lo as int, 2, 13, 0, 13, 0);
    }
    assert forall|r: int|
        is_rank(r) && r != hi && r != lo && #[trigger] count(hand, r) >= 1 implies r <= rest[0] by {
        lemma_kickers_confine(hand, excluded, 1, rest, r);
    }
    assert(excluded.contains(hi));
    assert(excluded.contains(lo));
    lemma_two_pair_best(hand, hi as int, lo as int, rest[0] as int);
}

fn evaluate_pair(present: u16, pair: u8, hand: Ghost<Set<Card>>) -> (rank: HandRank)
    requires
        plain(present, hand@),
        pair < 13,
        count(hand@, pair as int) == 2,
        forall|r: int| is_rank(r) && r != pair ==> #[trigger] count(hand@, r) <= 1,
    ensures
        is_best(hand@, rank@),
{
    let excluded: [u8; 1] = [pair];
    let rest = kickers(present, &excluded, 3, hand);
    proof {
        assert(excluded@ =~= seq![pair]);
        lemma_pair_kickers(hand@, pair, rest@);
    }
    let first: u8 = rest[0];
    let second: u8 = rest[1];
    let third: u8 = rest[2];
    HandRank::pack(Category::Pair, &[pair, first, second, third])
}

proof fn lemma_pair_kickers(hand: Set<Card>, pair: u8, rest: Seq<u8>)
    requires
        unsuited(hand),
        forall|h: int| !#[trigger] has_straight(hand, h),
        pair < 13,
        count(hand, pair as int) == 2,
        forall|r: int| is_rank(r) && r != pair ==> #[trigger] count(hand, r) <= 1,
        lists_kickers(hand, seq![pair], 3, rest),
    ensures
        rest.len() == 3,
        rest[0] < 13,
        rest[1] < 13,
        rest[2] < 13,
        is_best(
            hand,
            value4(Category::Pair, pair as int, rest[0] as int, rest[1] as int, rest[2] as int).packed(),
        ),
{
    let excluded = seq![pair];
    assert(excluded[0] == pair);
    if rest.len() < 3 {
        assert forall|r: int| is_rank(r) implies #[trigger] count(hand, r) <= at(r, pair as int, 2) + at(
            r,
            place(rest, 0),
            1,
        ) + at(r, place(rest, 1), 1) + at(r, 13, 0) by {
            if r != pair && count(hand, r) >= 1 {
                lemma_kickers_confine(hand, excluded, 3, rest, r);
            }
        }
        lemma_confined(hand, 13, pair as int, 2, place(rest, 0), 1, place(rest, 1), 1, 13, 0);
    }
    assert forall|r: int| is_rank(r) && r != pair && #[trigger] count(hand, r) >= 1 implies r == rest[0] || r
        == rest[1] || r == rest[2] || r < rest[2] by {
        lemma_kickers_confine(hand, excluded, 3, rest, r);
    }
    assert(excluded.contains(pair));
    lemma_pair_best(hand, pair as int, rest[0] as int, rest[1] as int, rest[2] as int);
}

fn evaluate_high_card(present: u16, hand: Ghost<Set<Card>>) -> (rank: HandRank)
    requires
        plain(present, hand@),
        forall|r: int| is_rank(r) ==> #[trigger] count(hand@, r) <= 1,
    ensures
        is_best(hand@, rank@),
{
    let excluded: [u8; 0] = [];
    let rest = kickers(present, &excluded, 5, hand);
    proof {
        assert(excluded@ =~= seq![]);
        lemma_high_card_kickers(hand@, rest@);
    }
    HandRank::pack(Category::HighCard, rest.as_slice())
}

proof fn lemma_high_card_kickers(hand: Set<Card>, rest: Seq<u8>)
    requires
        unsuited(hand),
        forall|h: int| !#[trigger] has_straight(hand, h),
        forall|r: int| is_rank(r) ==> #[trigger] count(hand, r) <= 1,
        lists_kickers(hand, seq![], 5, rest),
    ensures
        rest.len() == 5,
        is_best(hand, value_of(Category::HighCard, rest).packed()),
{
    let excluded = Seq::<u8>::empty();
    if rest.len() < 5 {
        assert forall|r: int| is_rank(r) implies #[trigger] count(hand, r) <= at(r, place(rest, 0), 1) + at(
            r,
            place(rest, 1),
            1,
        ) + at(r, place(rest, 2), 1) + at(r, place(rest, 3), 1) by {
            if count(hand, r) >= 1 {
                lemma_kickers_confine(hand, excluded, 5, rest, r);
            }
        }
        lemma_confined(
            hand,
            13,
            place(rest, 0),
            1,
            place(rest, 1),
            1,
            place(rest, 2),
            1,
            place(rest, 3),
            1,
        );
    }
    let best = value_of(Category::HighCard, rest);
    assert forall|r: int| is_rank(r) && #[trigger] count(hand, r) >= 1 implies r == best.first || r
        == best.second || r == best.third || r == best.fourth || r == best.fifth || r < best.fifth by {
        lemma_kickers_confine(hand, excluded, 5, rest, r);
    }
    lemma_high_card_best(hand, best);
}

/// Evaluates the best five-card hand available from five to seven distinct
/// cards.
pub fn evaluate(cards: &[Card]) -> (rank: HandRank)
    requires
        5 <= cards@.len() <= 7,
        cards@.no_duplicates(),
    ensures
        is_best(cards@.to_set(), rank@),
        rank@ == strength(cards@.to_set()),
{
    let tally = tally(cards);
    let hand: Ghost<Set<Card>> = Ghost(cards@.to_set());
    let mut s: usize = 0;
    while s < 4
        invariant
            s <= 4,
            hand@ == cards@.to_set(),
            tally.counts(hand@),
            ranked(hand@, 13) <= 7,
            forall|t: int| 0 <= t < s ==> #[trigger] suited(hand@, t, 13) < 5,
        decreases 4 - s,
    {
        assert(tally.suits@[s as int] == suited(hand@, s as int, 13));
        if tally.suits[s] >= 5 {
            let rank = evaluate_suited(&tally, s, hand);
            proof {
                lemma_best_unique(hand@, rank@, strength(hand@));
            }
            return rank;
        }
        s = s + 1;
    }
    let groups = groups(&tally.ranks, hand);
    let rank = evaluate_unsuited(&groups, hand);
    proof {
        lemma_best_unique(hand@, rank@, strength(hand@));
    }
    rank
}

/// How many cards of rank `r` and a suit index from `s` up the hand holds.
spec fn count_from(hand: Set<Card>, r: int, s: int) -> int
    decreases 4 - s,
{
    if s >= 4 {
        0
    } else {
        one(held(hand, r, s)) + count_from(hand, r, s + 1)
    }
}

/// A part of the hand: `n` of its cards of rank `r`.
spec fn is_pick(hand: Set<Card>, r: int, n: int, part: Set<Card>) -> bool {
    &&& part.finite()
    &&& part.len() == n
    &&& part.subset_of(hand)
    &&& forall|c: Card| #[trigger] part.contains(c) ==> c.rank_order() == r
    &&& count(part, r) == n
}

proof fn pick_from(hand: Set<Card>, r: int, n: int, s: int) -> (part: Set<Card>)
    requires
        is_rank(r),
        0 <= s <= 4,
        0 <= n <= count_from(hand, r, s),
    ensures
        part.finite(),
        part.len() == n,
        part.subset_of(hand),
        forall|c: Card| #[trigger] part.contains(c) ==> c.rank_order() == r && c.suit_order() >= s,
        count_from(part, r, s) == n,
    decreases 4 - s,
{
    if s >= 4 {
        Set::empty()
    } else if n > 0 && held(hand, r, s) {
        let rest = pick_from(hand, r, n - 1, s + 1);
        let card = card::card_at(r, s);
        assert(card.rank_order() == r && card.suit_order() == s);
        let part = rest.insert(card);
        lemma_count_from_beyond(rest, part, r, s + 1, card);
        part
    } else {
        let n2 = if n > 0 {
            n
        } else {
            0
        };
        lemma_count_from_bounded(hand, r, s + 1);
        let part = pick_from(hand, r, n2, s + 1);
        assert(!held(part, r, s)) by {
            let card = card::card_at(r, s);
            assert(card.rank_order() == r && card.suit_order() == s);
        }
        part
    }
}

proof fn lemma_count_from_bounded(hand: Set<Card>, r: int, s: int)
    ensures
        count_from(hand, r, s) >= 0,
    decreases 4 - s,
{
    if s < 4 {
        lemma_count_from_bounded(hand, r, s + 1);
    }
}

proof fn lemma_count_from_beyond(rest: Set<Card>, part: Set<Card>, r: int, s: int, card: Card)
    requires
        is_rank(r),
        0 < s,
        part == rest.insert(card),
        card.suit_order() < s,
    ensures
        count_from(part, r, s) == count_from(rest, r, s),
    decreases 4 - s,
{
    if s < 4 {
        let other = card::card_at(r, s);
        assert(other.rank_order() == r && other.suit_order() == s);
        lemma_count_from_beyond(rest, part, r, s + 1, card);
    }
}

proof fn pick(hand: Set<Card>, r: int, n: int) -> (part: Set<Card>)
    requires
        is_rank(r),
        0 <= n <= count(hand, r),
    ensures
        is_pick(hand, r, n, part),
{
    reveal_with_fuel(count_from, 5);
    pick_from(hand, r, n, 0)
}

/// A larger hand holds whatever a smaller one does.
proof fn lemma_counts_grow(small: Set<Card>, large: Set<Card>)
    requires
        small.subset_of(large),
    ensures
        forall|r: int, s: int| #[trigger] held(small, r, s) ==> held(large, r, s),
        forall|r: int| #[trigger] count(small, r) <= count(large, r),
{
}

/// A larger hand makes whatever a smaller one does.
pub proof fn law_more_cards_never_hurt(small: Set<Card>, large: Set<Card>, v: Value)
    requires
        small.subset_of(large),
        makes(small, v),
    ensures
        makes(large, v),
{
    lemma_counts_grow(small, large);
    if v.category == Category::StraightFlush {
        let s = choose|s: int| 0 <= s < 4 && #[trigger] has_straight_flush(small, s, v.first);
        assert forall|r: int| is_rank(r) && in_straight(v.first, r) implies #[trigger] held(large, r, s) by {
            assert(held(small, r, s));
        }
        assert(has_straight_flush(large, s, v.first));
    }
    if v.category == Category::Flush {
        let s = choose|s: int| 0 <= s < 4 && #[trigger] has_flush(small, s, v);
        assert(has_flush(large, s, v));
    }
    if v.category == Category::Straight {
        assert forall|r: int| is_rank(r) && in_straight(v.first, r) implies #[trigger] count(large, r) >= 1 by {
            assert(count(small, r) >= 1);
        }
    }
}

/// Two parts of different ranks are apart, and together hold both.
proof fn lemma_join(a: Set<Card>, b: Set<Card>)
    requires
        a.finite(),
        b.finite(),
        forall|c: Card, d: Card| #[trigger] a.contains(c) && #[trigger] b.contains(d) ==> c != d,
    ensures
        a.union(b).finite(),
        a.union(b).len() == a.len() + b.len(),
        a.subset_of(a.union(b)),
        b.subset_of(a.union(b)),
{
    assert(a.disjoint(b));
    vstd::set_lib::lemma_set_disjoint_lens(a, b);
}

/// Five cards of one each of five ranks.
proof fn pick_five(hand: Set<Card>, a: int, b: int, c: int, d: int, e: int) -> (five: Set<Card>)
    requires
        is_rank(a) && is_rank(b) && is_rank(c) && is_rank(d) && is_rank(e),
        a != b && a != c && a != d && a != e && b != c && b != d && b != e && c != d && c != e && d != e,
        count(hand, a) >= 1 && count(hand, b) >= 1 && count(hand, c) >= 1 && count(hand, d) >= 1 && count(
            hand,
            e,
        ) >= 1,
    ensures
        five.finite(),
        five.len() == 5,
        five.subset_of(hand),
        count(five, a) >= 1 && count(five, b) >= 1 && count(five, c) >= 1 && count(five, d) >= 1 && count(
            five,
            e,
        ) >= 1,
{
    let pa = pick(hand, a, 1);
    let pb = pick(hand, b, 1);
    let pc = pick(hand, c, 1);
    let pd = pick(hand, d, 1);
    let pe = pick(hand, e, 1);
    lemma_join(pa, pb);
    let two = pa.union(pb);
    lemma_join(two, pc);
    let three = two.union(pc);
    lemma_join(three, pd);
    let four = three.union(pd);
    lemma_join(four, pe);
    let five = four.union(pe);
    lemma_counts_grow(pa, five);
    lemma_counts_grow(pb, five);
    lemma_counts_grow(pc, five);
    lemma_counts_grow(pd, five);
    lemma_counts_grow(pe, five);
    five
}

/// Five cards of one suit.
proof fn pick_suited(hand: Set<Card>, s: int, v: Value) -> (five: Set<Card>)
    requires
        0 <= s < 4,
        has_flush(hand, s, v),
    ensures
        five.finite(),
        five.len() == 5,
        five.subset_of(hand),
        has_flush(five, s, v),
{
    let a = card::card_at(v.first, s);
    let b = card::card_at(v.second, s);
    let c = card::card_at(v.third, s);
    let d = card::card_at(v.fourth, s);
    let e = card::card_at(v.fifth, s);
    assert(a.rank_order() == v.first);
    assert(b.rank_order() == v.second);
    assert(c.rank_order() == v.third);
    assert(d.rank_order() == v.fourth);
    assert(e.rank_order() == v.fifth);
    Set::empty().insert(a).insert(b).insert(c).insert(d).insert(e)
}

/// Whatever a hand makes, five of its cards make.
pub proof fn law_five_cards_suffice(hand: Set<Card>, v: Value) -> (five: Set<Card>)
    requires
        makes(hand, v),
    ensures
        five.finite(),
        five.len() == 5,
        five.subset_of(hand),
        makes(five, v),
{
    lemma_made_in_range(hand, v);
    match v.category {
        Category::StraightFlush => {
            let s = choose|s: int| 0 <= s < 4 && #[trigger] has_straight_flush(hand, s, v.first);
            let h = v.first;
            let shown = if h == 3 {
                value5(Category::Flush, 12, 3, 2, 1, 0)
            } else {
                value5(Category::Flush, h, h - 1, h - 2, h - 3, h - 4)
            };
            assert(held(hand, shown.first, s));
            assert(held(hand, shown.second, s));
            assert(held(hand, shown.third, s));
            assert(held(hand, shown.fourth, s));
            assert(held(hand, shown.fifth, s));
            let five = pick_suited(hand, s, shown);
            assert(has_straight_flush(five, s, h)) by {
                assert forall|r: int| is_rank(r) && in_straight(h, r) implies #[trigger] held(five, r, s) by {
                    assert(r == shown.first || r == shown.second || r == shown.third || r == shown.fourth
                        || r == shown.fifth);
                }
            }
            five
        },
        Category::Flush => {
            let s = choose|s: int| 0 <= s < 4 && #[trigger] has_flush(hand, s, v);
            pick_suited(hand, s, v)
        },
        Category::FourOfAKind => {
            let most = pick(hand, v.first, 4);
            let rest = pick(hand, v.second, 1);
            lemma_join(most, rest);
            lemma_counts_grow(most, most.union(rest));
            lemma_counts_grow(rest, most.union(rest));
            most.union(rest)
        },
        Category::FullHouse => {
            let most = pick(hand, v.first, 3);
            let rest = pick(hand, v.second, 2);
            lemma_join(most, rest);
            lemma_counts_grow(most, most.union(rest));
            lemma_counts_grow(rest, most.union(rest));
            most.union(rest)
        },
        Category::Straight => {
            let h = v.first;
            let low = if h == 3 {
                12
            } else {
                h - 4
            };
            assert(count(hand, h) >= 1);
            assert(count(hand, h - 1) >= 1);
            assert(count(hand, h - 2) >= 1);
            assert(count(hand, h - 3) >= 1);
            assert(count(hand, low) >= 1);
            let five = pick_five(hand, h, h - 1, h - 2, h - 3, low);
            assert forall|r: int| is_rank(r) && in_straight(h, r) implies #[trigger] count(five, r) >= 1 by {
                assert(r == h || r == h - 1 || r == h - 2 || r == h - 3 || r == low);
            }
            five
        },
        Category::ThreeOfAKind => {
            let most = pick(hand, v.first, 3);
            let b = pick(hand, v.second, 1);
            let c = pick(hand, v.third, 1);
            lemma_join(b, c);
            lemma_join(most, b.union(c));
            let five = most.union(b.union(c));
            lemma_counts_grow(most, five);
            lemma_counts_grow(b, five);
            lemma_counts_grow(c, five);
            five
        },
        Category::TwoPair => {
            let a = pick(hand, v.first, 2);
            let b = pick(hand, v.second, 2);
            let c = pick(hand, v.third, 1);
            lemma_join(b, c);
            lemma_join(a, b.union(c));
            let five = a.union(b.union(c));
            lemma_counts_grow(a, five);
            lemma_counts_grow(b, five);
            lemma_counts_grow(c, five);
            five
        },
        Category::Pair => {
            let a = pick(hand, v.first, 2);
            let b = pick(hand, v.second, 1);
            let c = pick(hand, v.third, 1);
            let d = pick(hand, v.fourth, 1);
            lemma_join(c, d);
            lemma_join(b, c.union(d));
            lemma_join(a, b.union(c.union(d)));
            let five = a.union(b.union(c.union(d)));
            lemma_counts_grow(a, five);
            lemma_counts_grow(b, five);
            lemma_counts_grow(c, five);
            lemma_counts_grow(d, five);
            five
        },
        Category::HighCard => pick_five(hand, v.first, v.second, v.third, v.fourth, v.fifth),
    }
}

/// The strength of a hand is that of the best five of its cards: no part of the
/// hand is stronger, and some five cards are as strong.
pub proof fn law_best_of_five(hand: Set<Card>, best: int)
    requires
        is_best(hand, best),
    ensures
        forall|part: Set<Card>, w: int| part.subset_of(hand) && #[trigger] is_best(part, w) ==> w <= best,
        exists|five: Set<Card>|
            five.finite() && five.len() == 5 && five.subset_of(hand) && #[trigger] is_best(five, best),
{
    assert forall|part: Set<Card>, w: int|
        part.subset_of(hand) && #[trigger] is_best(part, w) implies w <= best by {
        let v = choose|v: Value| #[trigger] makes(part, v) && v.packed() == w;
        law_more_cards_never_hurt(part, hand, v);
    }
    let v = choose|v: Value| #[trigger] makes(hand, v) && v.packed() == best;
    let five = law_five_cards_suffice(hand, v);
    assert(is_best(five, best)) by {
        assert forall|w: Value| #[trigger] makes(five, w) implies w.packed() <= best by {
            law_more_cards_never_hurt(five, hand, w);
        }
    }
}

/// Every hand that makes anything is above the worst rank.
pub proof fn law_worst_is_below_every_hand(hand: Set<Card>, best: int)
    requires
        is_best(hand, best),
    ensures
        best > 0,
        best < 0x900000,
{
    let v = choose|v: Value| #[trigger] makes(hand, v) && v.packed() == best;
    lemma_made_in_range(hand, v);
}

/// Values compare by category first and then by each tiebreak in turn.
pub proof fn law_values_compare_in_order(v: Value, w: Value)
    requires
        v.in_range(),
        w.in_range(),
    ensures
        v.category.order() > w.category.order() ==> v.packed() > w.packed(),
        v.category == w.category && v.first > w.first ==> v.packed() > w.packed(),
        v.category == w.category && v.first == w.first && v.second > w.second ==> v.packed() > w.packed(),
        v.category == w.category && v.first == w.first && v.second == w.second && v.third > w.third
            ==> v.packed() > w.packed(),
        v.category == w.category && v.first == w.first && v.second == w.second && v.third == w.third
            && v.fourth > w.fourth ==> v.packed() > w.packed(),
        v.category == w.category && v.first == w.first && v.second == w.second && v.third == w.third
            && v.fourth == w.fourth && v.fifth > w.fifth ==> v.packed() > w.packed(),
        v.packed() == w.packed() ==> v == w,
{
}

/// A hand with its suits renamed.
pub open spec fn relabelled(hand: Set<Card>, suits: spec_fn(int) -> int) -> Set<Card> {
    Set::new(
        |c: Card|
            exists|s: int|
                0 <= s < 4 && suits(s) == c.suit_order() && #[trigger] held(hand, c.rank_order(), s),
    )
}

/// Whether a renaming keeps the suits apart.
pub open spec fn renames(suits: spec_fn(int) -> int) -> bool {
    &&& forall|s: int| 0 <= s < 4 ==> 0 <= #[trigger] suits(s) < 4
    &&& forall|s: int, t: int| 0 <= s < 4 && 0 <= t < 4 && #[trigger] suits(s) == #[trigger] suits(t) ==> s == t
}

proof fn lemma_relabelled_held(hand: Set<Card>, suits: spec_fn(int) -> int, r: int, s: int)
    requires
        renames(suits),
        is_rank(r),
        0 <= s < 4,
    ensures
        held(relabelled(hand, suits), r, suits(s)) == held(hand, r, s),
{
    let card = card::card_at(r, suits(s));
    assert(card.rank_order() == r && card.suit_order() == suits(s));
}

proof fn lemma_relabelled_count(hand: Set<Card>, suits: spec_fn(int) -> int, r: int)
    requires
        renames(suits),
        is_rank(r),
    ensures
        count(relabelled(hand, suits), r) == count(hand, r),
{
    lemma_relabelled_held(hand, suits, r, 0);
    lemma_relabelled_held(hand, suits, r, 1);
    lemma_relabelled_held(hand, suits, r, 2);
    lemma_relabelled_held(hand, suits, r, 3);
    let a = suits(0);
    let b = suits(1);
    let c = suits(2);
    let d = suits(3);
    assert(a != b && a != c && a != d && b != c && b != d && c != d);
}

proof fn lemma_relabelled_makes(hand: Set<Card>, suits: spec_fn(int) -> int, v: Value)
    requires
        renames(suits),
        makes(hand, v),
    ensures
        makes(relabelled(hand, suits), v),
{
    let other = relabelled(hand, suits);
    lemma_made_in_range(hand, v);
    lemma_relabelled_count(hand, suits, v.first);
    lemma_relabelled_count(hand, suits, v.second);
    lemma_relabelled_count(hand, suits, v.third);
    lemma_relabelled_count(hand, suits, v.fourth);
    lemma_relabelled_count(hand, suits, v.fifth);
    if v.category == Category::StraightFlush {
        let s = choose|s: int| 0 <= s < 4 && #[trigger] has_straight_flush(hand, s, v.first);
        assert forall|r: int| is_rank(r) && in_straight(v.first, r) implies #[trigger] held(other, r, suits(s)) by {
            assert(held(hand, r, s));
            lemma_relabelled_held(hand, suits, r, s);
        }
        assert(has_straight_flush(other, suits(s), v.first));
    }
    if v.category == Category::Flush {
        let s = choose|s: int| 0 <= s < 4 && #[trigger] has_flush(hand, s, v);
        lemma_relabelled_held(hand, suits, v.first, s);
        lemma_relabelled_held(hand, suits, v.second, s);
        lemma_relabelled_held(hand, suits, v.third, s);
        lemma_relabelled_held(hand, suits, v.fourth, s);
        lemma_relabelled_held(hand, suits, v.fifth, s);
        assert(has_flush(other, suits(s), v));
    }
    if v.category == Category::Straight {
        assert forall|r: int| is_rank(r) && in_straight(v.first, r) implies #[trigger] count(other, r) >= 1 by {
            assert(count(hand, r) >= 1);
            lemma_relabelled_count(hand, suits, r);
        }
    }
}

/// Renaming the suits of a hand leaves its strength as it was.
pub proof fn law_suits_do_not_rank(hand: Set<Card>, suits: spec_fn(int) -> int, best: int)
    requires
        renames(suits),
        is_best(hand, best),
    ensures
        is_best(relabelled(hand, suits), best),
{
    let other = relabelled(hand, suits);
    let v = choose|v: Value| #[trigger] makes(hand, v) && v.packed() == best;
    lemma_relabelled_makes(hand, suits, v);
    let back = |t: int| source_suit(suits, t);
    assert(renames(back)) by {
        assert forall|t: int| 0 <= t < 4 implies 0 <= #[trigger] back(t) < 4 && suits(back(t)) == t by {
            lemma_renaming_covers(suits, t);
        }
    }
    assert forall|w: Value| #[trigger] makes(other, w) implies w.packed() <= best by {
        lemma_relabelled_makes(other, back, w);
        assert(relabelled(other, back) =~= hand) by {
            assert forall|c: Card| relabelled(other, back).contains(c) == hand.contains(c) by {
                let r = c.rank_order();
                let s = c.suit_order();
                card::lemma_order(c, c);
                let t = suits(s);
                lemma_renaming_covers(suits, t);
                assert(back(t) == s);
                lemma_relabelled_held(hand, suits, r, s);
                lemma_relabelled_held(other, back, r, t);
            }
        }
    }
}

/// A renaming of the suits reaches every suit.
proof fn lemma_renaming_covers(suits: spec_fn(int) -> int, t: int)
    requires
        renames(suits),
        0 <= t < 4,
    ensures
        0 <= source_suit(suits, t) < 4,
        suits(source_suit(suits, t)) == t,
{
    let a = suits(0);
    let b = suits(1);
    let c = suits(2);
    let d = suits(3);
    assert(a != b && a != c && a != d && b != c && b != d && c != d);
    assert(a == t || b == t || c == t || d == t);
    assert(exists|s: int| 0 <= s < 4 && #[trigger] suits(s) == t);
}

/// The suit that a renaming takes to `t`.
spec fn source_suit(suits: spec_fn(int) -> int, t: int) -> int {
    choose|s: int| 0 <= s < 4 && #[trigger] suits(s) == t
}

/// Hands rank by kind first: a straight flush beats four of a kind, that a full
/// house, that a flush, that a straight, that three of a kind, that two pair,
/// that a pair, and that any five cards.
pub proof fn law_kinds_of_hands_rank(v: Value, w: Value)
    requires
        v.in_range(),
        w.in_range(),
    ensures
        ({
            let rank = |category: Category| match category {
                Category::StraightFlush => 8int,
                Category::FourOfAKind => 7,
                Category::FullHouse => 6,
                Category::Flush => 5,
                Category::Straight => 4,
                Category::ThreeOfAKind => 3,
                Category::TwoPair => 2,
                Category::Pair => 1,
                Category::HighCard => 0,
            };
            rank(v.category) > rank(w.category) ==> v.packed() > w.packed()
        }),
{
}

/// How many cards of a rank a hand holds is how many of its cards have that
/// rank.
pub proof fn law_ranks_are_counted_card_by_card(hand: Set<Card>, r: int)
    requires
        0 <= r < 13,
    ensures
        hand.filter(|card: Card| card.rank.order() == r).finite(),
        hand.filter(|card: Card| card.rank.order() == r).len() == count(hand, r),
{
    let (a, b, c, d) = (card::card_at(r, 0), card::card_at(r, 1), card::card_at(r, 2), card::card_at(r, 3));
    let all = hand.filter(|card: Card| card.rank.order() == r);
    let empty = Set::<Card>::empty();
    let one = if hand.contains(a) {
        empty.insert(a)
    } else {
        empty
    };
    let two = if hand.contains(b) {
        one.insert(b)
    } else {
        one
    };
    let three = if hand.contains(c) {
        two.insert(c)
    } else {
        two
    };
    let four = if hand.contains(d) {
        three.insert(d)
    } else {
        three
    };
    assert forall|card: Card| #[trigger] all.contains(card) == four.contains(card) by {
        if all.contains(card) {
            assert(card == a || card == b || card == c || card == d);
        }
    }
    assert(all =~= four);
}

} // verus!
