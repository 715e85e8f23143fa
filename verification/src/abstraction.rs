//! Abstraction: shrinking the game tree to a size that can be solved.
//!
//! - **Card abstraction** groups hands that play alike. Preflop this is exact:
//!   suits carry no information before a board exists, so 1,326 hole-card
//!   combinations collapse to 169 strategically distinct classes. Postflop it is
//!   lossy, bucketing hands by strength.
//! - **Action abstraction** restricts betting to a handful of pot-relative
//!   sizes instead of every legal amount.

use crate::betting::{Action, LegalActions};
use crate::card;
use crate::card::{Card, Rank};
use crate::precision;
use crate::text;
use vstd::prelude::*;

verus! {

/// The number of strategically distinct starting hands in Hold'em.
pub const NUM_HAND_CLASSES: usize = 169;

/// A starting-hand class such as `AA`, `AKs`, or `AKo`.
///
/// The classes are the cells of a 13x13 grid: pairs on the diagonal, suited
/// hands on one side of it, offsuit hands on the other.
#[derive(Debug, Clone, Copy, PartialEq, Eq, PartialOrd, Ord, Hash, Structural)]
pub struct HandClass {
    cell: u8,
}

/// A class as a mathematical value: its two ranks, by index, and whether the
/// cards share a suit.
pub struct ClassModel {
    pub high: int,
    pub low: int,
    pub suited: bool,
}

/// The cell of the grid that a class takes.
pub open spec fn cell_of(class: ClassModel) -> int {
    if class.suited {
        class.high * 13 + class.low
    } else {
        class.low * 13 + class.high
    }
}

/// The class that takes a cell of the grid.
pub open spec fn class_at(cell: int) -> ClassModel {
    let row = cell / 13;
    let column = cell % 13;
    ClassModel {
        high: if row > column {
            row
        } else {
            column
        },
        low: if row > column {
            column
        } else {
            row
        },
        suited: row > column,
    }
}

impl ClassModel {
    /// Whether the ranks are ranks in order, and a pair is not suited.
    pub open spec fn sound(self) -> bool {
        0 <= self.low <= self.high < 13 && (self.low == self.high ==> !self.suited)
    }

    /// How many card combinations make up the class.
    pub open spec fn weight(self) -> int {
        if self.high == self.low {
            6
        } else if self.suited {
            4
        } else {
            12
        }
    }

    /// The class in standard notation.
    pub open spec fn text(self) -> Seq<char> {
        let ranks = seq![card::rank_chars()[self.high], card::rank_chars()[self.low]];
        if self.high == self.low {
            ranks
        } else if self.suited {
            ranks + seq!['s']
        } else {
            ranks + seq!['o']
        }
    }
}

/// The class of a two-card holding.
pub open spec fn class_of(a: Card, b: Card) -> ClassModel {
    class_with(a.rank, b.rank, a.suit == b.suit)
}

/// The class of two ranks, in either order, suited or not.
pub open spec fn class_with(a: Rank, b: Rank, suited: bool) -> ClassModel {
    ClassModel {
        high: if a.order() >= b.order() {
            a.order()
        } else {
            b.order()
        },
        low: if a.order() >= b.order() {
            b.order()
        } else {
            a.order()
        },
        suited: suited && a != b,
    }
}

impl View for HandClass {
    type V = ClassModel;

    closed spec fn view(&self) -> ClassModel {
        class_at(self.cell as int)
    }
}

/// The cells of the grid and the classes are the same thing: each class takes
/// one cell and each cell holds one class.
pub proof fn law_classes_fill_the_grid(class: ClassModel, cell: int)
    ensures
        class.sound() ==> 0 <= cell_of(class) < 169 && class_at(cell_of(class)) == class,
        0 <= cell < 169 ==> class_at(cell).sound() && cell_of(class_at(cell)) == cell,
{
    if class.sound() {
        if class.suited {
            lemma_cell(class.high, class.low);
        } else {
            lemma_cell(class.low, class.high);
        }
    }
}

proof fn lemma_cell(row: int, column: int)
    requires
        0 <= row < 13,
        0 <= column < 13,
    ensures
        0 <= row * 13 + column < 169,
        (row * 13 + column) / 13 == row,
        (row * 13 + column) % 13 == column,
{
}

impl HandClass {
    #[verifier::type_invariant]
    spec fn in_grid(self) -> bool {
        self.cell < 169
    }

    /// The class of two ranks in either order. A pair is the same class whether
    /// or not it is said to be suited.
    pub fn new(a: Rank, b: Rank, suited: bool) -> (class: HandClass)
        ensures
            class@ == class_with(a, b, suited),
            class@.sound(),
    {
        let x: u8 = a.index();
        let y: u8 = b.index();
        let (high, low) = if x >= y {
            (x, y)
        } else {
            (y, x)
        };
        let ghost model = class_with(a, b, suited);
        proof {
            assert(model.sound()) by {
                if a.order() == b.order() {
                    assert(a == b);
                }
            }
            law_classes_fill_the_grid(model, 0);
        }
        if suited {
            HandClass { cell: high * 13 + low }
        } else {
            HandClass { cell: low * 13 + high }
        }
    }

    /// The class of a two-card holding. Order of the cards does not matter.
    pub fn from_cards(a: Card, b: Card) -> (class: HandClass)
        requires
            a != b,
        ensures
            class@ == class_of(a, b),
            class@.sound(),
    {
        HandClass::new(a.rank(), b.rank(), a.suit() == b.suit())
    }

    /// Builds a class from its `0..169` index.
    pub fn from_index(index: usize) -> (class: Option<HandClass>)
        ensures
            index < 169 ==> class is Some && class->0@ == class_at(index as int),
            index >= 169 ==> class is None,
    {
        if index >= NUM_HAND_CLASSES {
            return None;
        }
        Some(HandClass { cell: index as u8 })
    }

    /// The index of this class, in `0..169`.
    pub fn index(self) -> (index: usize)
        ensures
            index == cell_of(self@),
            index < 169,
            class_at(index as int) == self@,
    {
        proof {
            use_type_invariant(&self);
            law_classes_fill_the_grid(self@, self.cell as int);
        }
        self.cell as usize
    }

    /// The grid coordinates this class occupies.
    fn coordinates(self) -> (place: (u8, u8))
        ensures
            place.0 < 13,
            place.1 < 13,
            self@ == class_at(place.0 * 13 + place.1),
            place.0 > place.1 <==> self@.suited,
            self@.high == (if place.0 > place.1 {
                place.0
            } else {
                place.1
            }),
            self@.low == (if place.0 > place.1 {
                place.1
            } else {
                place.0
            }),
    {
        proof {
            use_type_invariant(&self);
        }
        (self.cell / 13, self.cell % 13)
    }

    /// The higher of the two ranks.
    pub fn high(self) -> (rank: Rank)
        ensures
            rank.order() == self@.high,
    {
        let (row, column) = self.coordinates();
        rank_of(
            if row > column {
                row
            } else {
                column
            },
        )
    }

    /// The lower of the two ranks, equal to [`HandClass::high`] for a pair.
    pub fn low(self) -> (rank: Rank)
        ensures
            rank.order() == self@.low,
    {
        let (row, column) = self.coordinates();
        rank_of(
            if row > column {
                column
            } else {
                row
            },
        )
    }

    pub fn is_pair(self) -> (pair: bool)
        ensures
            pair == (self@.high == self@.low),
    {
        let (row, column) = self.coordinates();
        row == column
    }

    /// Whether both cards share a suit. Always false for a pair.
    pub fn is_suited(self) -> (suited: bool)
        ensures
            suited == self@.suited,
            suited ==> self@.high != self@.low,
    {
        let (row, column) = self.coordinates();
        row > column
    }

    /// How many card combinations make up this class: 6 for a pair, 4 for a
    /// suited hand, 12 for an offsuit one.
    pub fn combos(self) -> (combos: u32)
        ensures
            combos == self@.weight(),
    {
        if self.is_pair() {
            6
        } else if self.is_suited() {
            4
        } else {
            12
        }
    }

    /// Every hand class, in index order.
    pub fn all() -> (classes: Vec<HandClass>)
        ensures
            classes@.len() == 169,
            forall|i: int| 0 <= i < 169 ==> (#[trigger] classes@[i])@ == class_at(i),
    {
        let mut classes: Vec<HandClass> = Vec::new();
        let mut cell: usize = 0;
        while cell < NUM_HAND_CLASSES
            invariant
                cell <= 169,
                classes@.len() == cell,
                forall|i: int| 0 <= i < cell ==> (#[trigger] classes@[i])@ == class_at(i),
            decreases 169 - cell,
        {
            classes.push(HandClass { cell: cell as u8 });
            cell = cell + 1;
        }
        classes
    }

    /// Renders as `AA`, `AKs`, or `AKo`.
    pub fn to_string(&self) -> (text: String)
        ensures
            text@ == self@.text(),
    {
        proof {
            reveal_strlit("s");
            reveal_strlit("o");
        }
        let mut text = String::from_str(self.high().text());
        text.append(self.low().text());
        if !self.is_pair() {
            if self.is_suited() {
                text.append("s");
            } else {
                text.append("o");
            }
        }
        assert(text@ =~= self@.text());
        text
    }

    /// Parses `"AA"`, `"AKs"`, or `"AKo"`.
    pub fn from_str(s: &str) -> (class: Result<HandClass, ParseHandClassError>)
        ensures
            match class_named(s@) {
                Ok(model) => class matches Ok(c) && c@ == model,
                Err(error) => class == Err::<HandClass, ParseHandClassError>(error),
            },
    {
        let chars = card::chars_of(s);
        if chars.len() < 2 || chars.len() > 3 {
            return Err(ParseHandClassError::WrongLength(chars.len()));
        }
        let first = match Rank::from_char(chars[0]) {
            None => {
                return Err(ParseHandClassError::BadRank(chars[0]));
            },
            Some(rank) => rank,
        };
        let second = match Rank::from_char(chars[1]) {
            None => {
                return Err(ParseHandClassError::BadRank(chars[1]));
            },
            Some(rank) => rank,
        };
        if first == second {
            if chars.len() == 3 {
                return Err(ParseHandClassError::PairWithSuffix);
            }
            return Ok(HandClass::new(first, second, false));
        }
        if chars.len() == 2 {
            return Err(ParseHandClassError::MissingSuffix);
        }
        match chars[2] {
            's' | 'S' => Ok(HandClass::new(first, second, true)),
            'o' | 'O' => Ok(HandClass::new(first, second, false)),
            other => Err(ParseHandClassError::BadSuffix(other)),
        }
    }
}

fn rank_of(index: u8) -> (rank: Rank)
    requires
        index < 13,
    ensures
        rank.order() == index,
{
    match Rank::from_index(index) {
        Some(rank) => rank,
        None => Rank::Ace,
    }
}

/// Why a hand-class string could not be parsed.
#[derive(Debug, Clone, Copy, PartialEq, Eq, Structural)]
pub enum ParseHandClassError {
    /// Not two or three characters.
    WrongLength(usize),
    /// A rank character was not recognised.
    BadRank(char),
    /// The suffix was neither `s` nor `o`.
    BadSuffix(char),
    /// A pair was written with a suffix, e.g. `AAs`.
    PairWithSuffix,
    /// A non-pair was written without a suffix, e.g. `AK`.
    MissingSuffix,
}

/// What a text names as a class, or why it names none. The ranks may come in
/// either order, and everything in either case.
pub open spec fn class_named(text: Seq<char>) -> Result<ClassModel, ParseHandClassError> {
    if text.len() < 2 || text.len() > 3 {
        Err(ParseHandClassError::WrongLength(text.len() as usize))
    } else if card::rank_named(text[0]) is None {
        Err(ParseHandClassError::BadRank(text[0]))
    } else if card::rank_named(text[1]) is None {
        Err(ParseHandClassError::BadRank(text[1]))
    } else {
        let first = card::rank_named(text[0])->0;
        let second = card::rank_named(text[1])->0;
        if first == second {
            if text.len() == 3 {
                Err(ParseHandClassError::PairWithSuffix)
            } else {
                Ok(class_with(first, second, false))
            }
        } else if text.len() == 2 {
            Err(ParseHandClassError::MissingSuffix)
        } else if text[2] == 's' || text[2] == 'S' {
            Ok(class_with(first, second, true))
        } else if text[2] == 'o' || text[2] == 'O' {
            Ok(class_with(first, second, false))
        } else {
            Err(ParseHandClassError::BadSuffix(text[2]))
        }
    }
}

/// Reading back what a class is written as gives the class.
pub proof fn law_class_text_round_trips(class: ClassModel)
    requires
        class.sound(),
    ensures
        class_named(class.text()) == Ok::<ClassModel, ParseHandClassError>(class),
{
    let text = class.text();
    let high = card::rank_at(class.high);
    let low = card::rank_at(class.low);
    assert(high.order() == class.high && low.order() == class.low);
    assert(card::rank_named(card::rank_chars()[class.high]) == Some(high));
    assert(card::rank_named(card::rank_chars()[class.low]) == Some(low));
}

/// The order of the two cards does not matter to their class, and neither do
/// their suits beyond whether they are the same.
pub proof fn law_only_matching_suits_matter(a: Card, b: Card, c: Card, d: Card)
    requires
        a.rank == c.rank,
        b.rank == d.rank,
        (a.suit == b.suit) == (c.suit == d.suit),
    ensures
        class_of(a, b) == class_of(b, a),
        class_of(a, b) == class_of(c, d),
{
    if a.rank_order() == b.rank_order() {
        assert(a.rank == b.rank);
    }
}

/// The holdings of a class, each written with its lower card first.
pub open spec fn holdings(class: ClassModel) -> Set<(Card, Card)> {
    Set::new(|pair: (Card, Card)| pair.0.order() < pair.1.order() && class_of(pair.0, pair.1) == class)
}

spec fn pairing(class: ClassModel, s: int, t: int) -> (Card, Card) {
    (card::card_at(class.low, s), card::card_at(class.high, t))
}

proof fn lemma_pairing(class: ClassModel, s: int, t: int)
    requires
        class.sound(),
        0 <= s < 4,
        0 <= t < 4,
    ensures
        pairing(class, s, t).0.rank_order() == class.low,
        pairing(class, s, t).1.rank_order() == class.high,
        pairing(class, s, t).0.suit_order() == s,
        pairing(class, s, t).1.suit_order() == t,
        holdings(class).contains(pairing(class, s, t)) == (if class.high == class.low {
            s < t
        } else {
            class.suited == (s == t)
        }),
{
    let pair = pairing(class, s, t);
    assert(pair.0.rank_order() == class.low && pair.0.suit_order() == s);
    assert(pair.1.rank_order() == class.high && pair.1.suit_order() == t);
}

/// Every holding of a class pairs its low rank with its high rank.
proof fn lemma_holding_is_pairing(class: ClassModel, pair: (Card, Card))
    requires
        class.sound(),
        holdings(class).contains(pair),
    ensures
        pair == pairing(class, pair.0.suit_order(), pair.1.suit_order()),
        0 <= pair.0.suit_order() < 4,
        0 <= pair.1.suit_order() < 4,
{
    card::lemma_order(pair.0, pair.1);
    card::lemma_order(pair.1, pair.0);
    assert(pair.0.rank_order() <= pair.1.rank_order());
    assert(pair.0.rank_order() == class.low && pair.1.rank_order() == class.high);
}

/// The part of the holdings whose low card has suit `s`, for the suits of the
/// high card from `t` on.
spec fn with_low(class: ClassModel, s: int, t: int) -> Set<(Card, Card)> {
    holdings(class).filter(|pair: (Card, Card)| pair.0.suit_order() == s && pair.1.suit_order() >= t)
}

spec fn low_count(class: ClassModel, s: int, t: int) -> int
    decreases 4 - t,
{
    if t >= 4 {
        0
    } else {
        low_count(class, s, t + 1) + (if holdings(class).contains(pairing(class, s, t)) {
            1int
        } else {
            0
        })
    }
}

proof fn lemma_with_low(class: ClassModel, s: int, t: int)
    requires
        class.sound(),
        0 <= s < 4,
        0 <= t <= 4,
    ensures
        with_low(class, s, t).finite(),
        with_low(class, s, t).len() == low_count(class, s, t),
    decreases 4 - t,
{
    if t >= 4 {
        assert(with_low(class, s, t) =~= Set::empty()) by {
            assert forall|pair: (Card, Card)| !with_low(class, s, t).contains(pair) by {
                card::lemma_order(pair.1, pair.1);
            }
        }
    } else {
        lemma_with_low(class, s, t + 1);
        lemma_pairing(class, s, t);
        let rest = with_low(class, s, t + 1);
        let whole = with_low(class, s, t);
        let pair = pairing(class, s, t);
        assert forall|other: (Card, Card)| whole.contains(other) implies rest.contains(other) || other == pair by {
            lemma_holding_is_pairing(class, other);
        }
        if holdings(class).contains(pair) {
            assert(whole =~= rest.insert(pair));
        } else {
            assert(whole =~= rest);
        }
    }
}

/// The part of the holdings whose low card has a suit from `s` on.
spec fn from_low(class: ClassModel, s: int) -> Set<(Card, Card)> {
    holdings(class).filter(|pair: (Card, Card)| pair.0.suit_order() >= s)
}

proof fn lemma_from_low(class: ClassModel, s: int)
    requires
        class.sound(),
        0 <= s < 4,
        from_low(class, s + 1).finite(),
    ensures
        from_low(class, s).finite(),
        from_low(class, s).len() == from_low(class, s + 1).len() + low_count(class, s, 0),
{
    let a = with_low(class, s, 0);
    let b = from_low(class, s + 1);
    lemma_with_low(class, s, 0);
    assert(a.disjoint(b));
    assert forall|pair: (Card, Card)| #[trigger] from_low(class, s).contains(pair) implies (a + b).contains(pair) by {
        lemma_holding_is_pairing(class, pair);
    }
    assert(from_low(class, s) =~= a + b);
    vstd::set_lib::lemma_set_disjoint_lens(a, b);
}

/// A class is made up of as many holdings as its weight says.
pub proof fn law_classes_weigh_their_holdings(class: ClassModel)
    requires
        class.sound(),
    ensures
        holdings(class).finite(),
        holdings(class).len() == class.weight(),
{
    reveal_with_fuel(low_count, 5);
    assert(from_low(class, 4) =~= Set::empty()) by {
        assert forall|pair: (Card, Card)| !from_low(class, 4).contains(pair) by {
            card::lemma_order(pair.0, pair.0);
        }
    }
    lemma_from_low(class, 3);
    lemma_from_low(class, 2);
    lemma_from_low(class, 1);
    lemma_from_low(class, 0);
    assert forall|s: int, t: int| 0 <= s < 4 && 0 <= t < 4 implies holdings(class).contains(
        #[trigger] pairing(class, s, t),
    ) == (if class.high == class.low {
        s < t
    } else {
        class.suited == (s == t)
    }) by {
        lemma_pairing(class, s, t);
    }
    assert(from_low(class, 0) =~= holdings(class)) by {
        assert forall|pair: (Card, Card)| holdings(class).contains(pair) implies from_low(class, 0).contains(pair) by {
            lemma_holding_is_pairing(class, pair);
        }
    }
}

/// How many of the first `k` items are weaker than item `i`: those of less
/// value, and those of equal value that come before it.
pub open spec fn weaker(values: Seq<u64>, i: int, k: int) -> int
    decreases k,
{
    if k <= 0 {
        0
    } else {
        weaker(values, i, k - 1) + (if below(values, k - 1, i) {
            1int
        } else {
            0
        })
    }
}

/// Whether item `j` is weaker than item `i`.
pub open spec fn below(values: Seq<u64>, j: int, i: int) -> bool {
    values[j] < values[i] || (values[j] == values[i] && j < i)
}

/// The bucket of an item: its place among all, spread over the buckets.
pub open spec fn bucket(values: Seq<u64>, buckets: int, i: int) -> int {
    weaker(values, i, values.len() as int) * buckets / (values.len() as int)
}

/// Assigns items to equal-frequency buckets by their strength.
///
/// `values[i]` orders item `i` among the others. The result gives each item a
/// bucket in `0..buckets`, with the weakest items in bucket 0. Items of equal
/// strength keep their order, and may fall into different buckets.
pub fn bucket_by_strength(values: &[u64], buckets: usize) -> (assignment: Vec<u16>)
    requires
        0 < buckets <= 65536,
        values@.len() * buckets <= usize::MAX,
    ensures
        assignment@.len() == values@.len(),
        forall|i: int|
            0 <= i < values@.len() ==> #[trigger] assignment@[i] == bucket(values@, buckets as int, i),
        forall|i: int| 0 <= i < values@.len() ==> #[trigger] assignment@[i] < buckets,
{
    let n: usize = values.len();
    let mut assignment: Vec<u16> = Vec::new();
    let mut i: usize = 0;
    while i < n
        invariant
            n == values@.len(),
            i <= n,
            0 < buckets <= 65536,
            n * buckets <= usize::MAX,
            assignment@.len() == i,
            forall|j: int| 0 <= j < i ==> #[trigger] assignment@[j] == bucket(values@, buckets as int, j),
            forall|j: int| 0 <= j < i ==> #[trigger] assignment@[j] < buckets,
        decreases n - i,
    {
        let mut rank: usize = 0;
        let mut j: usize = 0;
        while j < n
            invariant
                n == values@.len(),
                i < n,
                j <= n,
                rank == weaker(values@, i as int, j as int),
                rank <= j,
                j > i ==> rank < j,
            decreases n - j,
        {
            if values[j] < values[i] || (values[j] == values[i] && j < i) {
                rank = rank + 1;
            }
            j = j + 1;
        }
        proof {
            lemma_bucket_in_range(rank as int, buckets as int, n as int);
        }
        let place: usize = rank * buckets / n;
        assignment.push(place as u16);
        i = i + 1;
    }
    assignment
}

proof fn lemma_bucket_in_range(rank: int, buckets: int, n: int)
    requires
        0 <= rank < n,
        0 < buckets,
    ensures
        0 <= rank * buckets <= n * buckets,
        0 <= rank * buckets / n < buckets,
{
    assert(0 <= rank * buckets && rank * buckets < n * buckets) by (nonlinear_arith)
        requires
            0 <= rank < n,
            0 < buckets,
    ;
    vstd::arithmetic::div_mod::lemma_div_pos_is_pos(rank * buckets, n);
    assert(n * buckets == buckets * n) by (nonlinear_arith);
    vstd::arithmetic::div_mod::lemma_multiply_divide_lt(rank * buckets, n, buckets);
}

proof fn lemma_weaker(values: Seq<u64>, i: int, j: int, k: int)
    requires
        0 <= i < values.len(),
        0 <= j < values.len(),
        0 <= k <= values.len(),
        below(values, j, i),
    ensures
        0 <= weaker(values, j, k) <= weaker(values, i, k) <= k,
        k > j ==> weaker(values, j, k) < weaker(values, i, k),
        k > i ==> weaker(values, i, k) < k,
    decreases k,
{
    if k > 0 {
        lemma_weaker(values, i, j, k - 1);
    }
}

proof fn lemma_weaker_bound(values: Seq<u64>, i: int, k: int)
    requires
        0 <= i < values.len(),
        0 <= k <= values.len(),
    ensures
        0 <= weaker(values, i, k) <= k,
        k > i ==> weaker(values, i, k) < k,
    decreases k,
{
    if k > 0 {
        lemma_weaker_bound(values, i, k - 1);
    }
}

/// A stronger item is never in a lower bucket.
pub proof fn law_stronger_items_are_in_no_lower_bucket(values: Seq<u64>, buckets: int, i: int, j: int)
    requires
        0 <= i < values.len(),
        0 <= j < values.len(),
        values[j] < values[i],
        0 < buckets,
    ensures
        bucket(values, buckets, j) <= bucket(values, buckets, i),
{
    let n = values.len() as int;
    lemma_weaker(values, i, j, n);
    let a = weaker(values, j, n);
    let b = weaker(values, i, n);
    assert(a * buckets <= b * buckets) by (nonlinear_arith)
        requires
            a <= b,
            buckets > 0,
    ;
    vstd::arithmetic::div_mod::lemma_div_is_ordered(a * buckets, b * buckets, n);
}

/// The items of a bucket.
pub open spec fn members(values: Seq<u64>, buckets: int, k: int) -> Set<int> {
    Set::new(|i: int| 0 <= i < values.len() && bucket(values, buckets, i) == k)
}

/// The places of a bucket.
spec fn places(n: int, buckets: int, k: int) -> Set<int> {
    Set::new(|r: int| 0 <= r < n && r * buckets / n == k)
}

/// The first place of a bucket: the least whole number no less than
/// `k * n / buckets`.
spec fn first_place(n: int, buckets: int, k: int) -> int {
    (k * n + buckets - 1) / buckets
}

proof fn lemma_first_place(n: int, buckets: int, k: int, r: int)
    requires
        0 < n,
        0 < buckets,
        0 <= k,
        0 <= r,
    ensures
        (r >= first_place(n, buckets, k)) == (r * buckets / n >= k),
{
    let f = first_place(n, buckets, k);
    let top = k * n + buckets - 1;
    vstd::arithmetic::div_mod::lemma_fundamental_div_mod(top, buckets);
    vstd::arithmetic::div_mod::lemma_mod_bound(top, buckets);
    let m = top % buckets;
    let q = r * buckets / n;
    vstd::arithmetic::div_mod::lemma_fundamental_div_mod(r * buckets, n);
    vstd::arithmetic::div_mod::lemma_mod_bound(r * buckets, n);
    let w = (r * buckets) % n;
    // r * buckets >= k * n exactly when r >= f
    assert((r >= f) == (r * buckets >= k * n)) by (nonlinear_arith)
        requires
            k * n + buckets - 1 == buckets * f + m,
            0 <= m < buckets,
            0 < buckets,
    ;
    assert((q >= k) == (r * buckets >= k * n)) by (nonlinear_arith)
        requires
            r * buckets == n * q + w,
            0 <= w < n,
            0 < n,
    ;
}

/// A bucket takes up a run of places whose length is the even share, rounded
/// down or up.
proof fn lemma_places(n: int, buckets: int, k: int)
    requires
        0 < n,
        0 < buckets,
        0 <= k < buckets,
    ensures
        places(n, buckets, k).finite(),
        n / buckets <= places(n, buckets, k).len() <= n / buckets + 1,
{
    let a = first_place(n, buckets, k);
    let b = first_place(n, buckets, k + 1);
    let s = n / buckets;
    vstd::arithmetic::div_mod::lemma_fundamental_div_mod(n, buckets);
    vstd::arithmetic::div_mod::lemma_mod_bound(n, buckets);
    let x = k * n + buckets - 1;
    let y = (k + 1) * n + buckets - 1;
    assert(y == x + n) by (nonlinear_arith)
        requires
            x == k * n + buckets - 1,
            y == (k + 1) * n + buckets - 1,
    ;
    vstd::arithmetic::div_mod::lemma_fundamental_div_mod(x, buckets);
    vstd::arithmetic::div_mod::lemma_mod_bound(x, buckets);
    vstd::arithmetic::div_mod::lemma_fundamental_div_mod(y, buckets);
    vstd::arithmetic::div_mod::lemma_mod_bound(y, buckets);
    assert(a + s <= b && b <= a + s + 1) by (nonlinear_arith)
        requires
            x == buckets * a + x % buckets,
            0 <= x % buckets < buckets,
            y == buckets * b + y % buckets,
            0 <= y % buckets < buckets,
            n == buckets * s + n % buckets,
            0 <= n % buckets < buckets,
            y == x + n,
            0 < buckets,
    ;
    assert(a >= 0) by (nonlinear_arith)
        requires
            x == buckets * a + x % buckets,
            0 <= x % buckets < buckets,
            x >= 0,
            0 < buckets,
    ;
    assert(x >= 0) by (nonlinear_arith)
        requires
            x == k * n + buckets - 1,
            k >= 0,
            n > 0,
            buckets > 0,
    ;
    lemma_last_place(n, buckets, k);
    let run = vstd::set_lib::set_int_range(a, b);
    vstd::set_lib::lemma_int_range(a, b);
    assert(places(n, buckets, k) =~= run) by {
        assert forall|r: int| places(n, buckets, k).contains(r) == run.contains(r) by {
            if 0 <= r {
                lemma_first_place(n, buckets, k, r);
                lemma_first_place(n, buckets, k + 1, r);
            }
        }
    }
}

proof fn lemma_last_place(n: int, buckets: int, k: int)
    requires
        0 < n,
        0 < buckets,
        0 <= k < buckets,
    ensures
        first_place(n, buckets, k + 1) <= n,
{
    let top = (k + 1) * n + buckets - 1;
    let b = top / buckets;
    vstd::arithmetic::div_mod::lemma_fundamental_div_mod(top, buckets);
    vstd::arithmetic::div_mod::lemma_mod_bound(top, buckets);
    assert(b <= n) by (nonlinear_arith)
        requires
            (k + 1) * n + buckets - 1 == buckets * b + top % buckets,
            0 <= top % buckets,
            k + 1 <= buckets,
            0 < n,
            0 < buckets,
    ;
}

/// Every item has a place of its own, so the places are all taken.
proof fn lemma_places_taken(values: Seq<u64>, r: int) -> (i: int)
    requires
        0 <= r < values.len(),
    ensures
        0 <= i < values.len(),
        weaker(values, i, values.len() as int) == r,
{
    let n = values.len() as int;
    let items = vstd::set_lib::set_int_range(0, n);
    let place = |i: int| weaker(values, i, n);
    vstd::set_lib::lemma_int_range(0, n);
    let taken = items.map(place);
    assert forall|i: int, j: int|
        #[trigger] items.contains(i) && #[trigger] items.contains(j) && place(i) == place(j) implies i == j by {
        if i != j {
            if below(values, j, i) {
                lemma_weaker(values, i, j, n);
            } else {
                lemma_weaker(values, j, i, n);
            }
        }
    }
    vstd::set_lib::lemma_map_size(items, taken, place);
    assert(taken.subset_of(items)) by {
        assert forall|q: int| taken.contains(q) implies items.contains(q) by {
            let i = choose|i: int| items.contains(i) && place(i) == q;
            lemma_weaker_bound(values, i, n);
        }
    }
    items.lemma_map_finite(place);
    vstd::set_lib::lemma_subset_equality(taken, items);
    assert(taken.contains(r));
    choose|i: int| items.contains(i) && place(i) == r
}

/// The buckets are evenly filled: their sizes differ by at most one.
pub proof fn law_buckets_are_evenly_filled(values: Seq<u64>, buckets: int, k: int)
    requires
        0 < values.len(),
        0 < buckets,
        0 <= k < buckets,
    ensures
        members(values, buckets, k).finite(),
        values.len() as int / buckets <= members(values, buckets, k).len() <= values.len() as int / buckets + 1,
{
    let n = values.len() as int;
    let items = members(values, buckets, k);
    let all = vstd::set_lib::set_int_range(0, n);
    vstd::set_lib::lemma_int_range(0, n);
    assert(items.subset_of(all));
    vstd::set_lib::lemma_len_subset(items, all);
    let place = |i: int| weaker(values, i, n);
    let spots = places(n, buckets, k);
    lemma_places(n, buckets, k);
    assert forall|i: int, j: int|
        #[trigger] items.contains(i) && #[trigger] items.contains(j) && place(i) == place(j) implies i == j by {
        if i != j {
            if below(values, j, i) {
                lemma_weaker(values, i, j, n);
            } else {
                lemma_weaker(values, j, i, n);
            }
        }
    }
    assert(items.map(place) =~= spots) by {
        assert forall|r: int| spots.contains(r) implies items.map(place).contains(r) by {
            let i = lemma_places_taken(values, r);
            assert(items.contains(i) && place(i) == r);
        }
        assert forall|r: int| items.map(place).contains(r) implies spots.contains(r) by {
            let i = choose|i: int| items.contains(i) && place(i) == r;
            lemma_weaker_bound(values, i, n);
        }
    }
    vstd::set_lib::lemma_map_size(items, spots, place);
}

/// Which bet sizes the solver is allowed to consider in a spot.
///
/// Sizes are shares of the pot *after* calling, matching how poker players
/// describe them: a "pot-sized raise" calls first, then bets the resulting pot.
#[derive(Debug, Clone, PartialEq, Eq)]
pub struct BetSizing {
    /// The pot fractions offered as bets or raises, in hundredths.
    pub fractions: Vec<u32>,
    /// Whether moving all in is always available.
    pub include_all_in: bool,
}

/// `percent` hundredths of `amount` in double precision, to the nearest whole
/// chip, halves up.
pub open spec fn share(amount: int, percent: int) -> int {
    precision::portion(amount, percent)
}

/// `percent` hundredths of `amount` in double precision, to the nearest whole
/// chip, halves up.
pub fn share_of(amount: u128, percent: u32) -> (chips: u128)
    requires
        amount <= 0x2_0000_0000_0000_0000,
    ensures
        chips == share(amount as int, percent as int),
{
    precision::portion_of(amount, percent)
}

/// The pot shares that fractions of the pot after calling come to.
pub open spec fn shares(fractions: Seq<u32>, pot: u64, legal: LegalActions) -> Seq<u64> {
    fractions.map_values(|percent: u32| share(pot + call_cost(legal), percent as int) as u64)
}

/// An amount kept within bounds.
pub open spec fn clamped(amount: int, low: int, high: int) -> int {
    if amount < low {
        low
    } else if amount > high {
        high
    } else {
        amount
    }
}

/// The chips a call costs, none where nothing is owed.
pub open spec fn call_cost(legal: LegalActions) -> int {
    match legal.call_cost {
        Some(cost) => cost as int,
        None => 0,
    }
}

/// Whether a commitment is one of the raises offered: a call and a share of the
/// pot on top, kept within the legal bounds, or all in.
pub open spec fn is_offered(shares: Seq<u64>, include_all_in: bool, legal: LegalActions, to: u64) -> bool {
    match legal.raise_to {
        None => false,
        Some((low, high)) => (include_all_in && to == high) || exists|i: int|
            0 <= i < shares.len() && to == clamped(
                #[trigger] shares[i] + call_cost(legal),
                low as int,
                high as int,
            ),
    }
}

/// The actions other than raises, in the order they are offered.
pub open spec fn passive_actions(legal: LegalActions) -> Seq<Action> {
    let fold = if legal.can_fold {
        seq![Action::Fold]
    } else {
        seq![]
    };
    let check = if legal.can_check {
        seq![Action::Check]
    } else {
        seq![]
    };
    let call = if legal.call_cost is Some {
        seq![Action::Call]
    } else {
        seq![]
    };
    fold + check + call
}

pub open spec fn rising(sizes: Seq<u64>) -> bool {
    forall|i: int, j: int| 0 <= i < j < sizes.len() ==> #[trigger] sizes[i] < #[trigger] sizes[j]
}

/// Whether a list offers everything passive that is legal and then each raise
/// size once, smallest first.
pub open spec fn offers(actions: Seq<Action>, shares: Seq<u64>, include_all_in: bool, legal: LegalActions) -> bool {
    exists|sizes: Seq<u64>|
        {
            &&& #[trigger] rising(sizes)
            &&& forall|to: u64| #[trigger] sizes.contains(to) <==> is_offered(shares, include_all_in, legal, to)
            &&& actions == passive_actions(legal) + sizes.map_values(|to: u64| Action::RaiseTo(to))
        }
}

/// Adds a size to a list of different sizes in rising order.
fn insert_size(sizes: &mut Vec<u64>, size: u64)
    requires
        rising(old(sizes)@),
    ensures
        rising(final(sizes)@),
        forall|to: u64| #[trigger] final(sizes)@.contains(to) <==> to == size || old(sizes)@.contains(to),
{
    let mut i: usize = 0;
    while i < sizes.len() && sizes[i] < size
        invariant
            i <= sizes@.len(),
            forall|j: int| 0 <= j < i ==> #[trigger] sizes@[j] < size,
        decreases sizes@.len() - i,
    {
        i = i + 1;
    }
    if i < sizes.len() && sizes[i] == size {
        return ;
    }
    let ghost before = sizes@;
    sizes.insert(i, size);
    proof {
        assert forall|j: int, k: int| 0 <= j < k < sizes@.len() implies #[trigger] sizes@[j] < #[trigger] sizes@[k] by {
            let old_j = if j < i {
                j
            } else {
                j - 1
            };
            let old_k = if k < i {
                k
            } else {
                k - 1
            };
            if j != i && k != i {
                assert(before[old_j] < before[old_k]);
            } else if j == i && i < before.len() {
                assert(before[i as int] <= before[old_k]);
            }
        }
        assert forall|to: u64| #[trigger] sizes@.contains(to) <==> to == size || before.contains(to) by {
            if before.contains(to) {
                let j = choose|j: int| 0 <= j < before.len() && before[j] == to;
                let at = if j < i {
                    j
                } else {
                    j + 1
                };
                assert(sizes@[at] == to);
            }
            if sizes@.contains(to) {
                let j = choose|j: int| 0 <= j < sizes@.len() && sizes@[j] == to;
                if j < i {
                    assert(before[j] == to);
                } else if j > i {
                    assert(before[j - 1] == to);
                }
            }
            assert(sizes@[i as int] == size);
        }
    }
}

/// The actions offered where raising to a share of the pot is.
fn sized_actions(shares: &Vec<u64>, include_all_in: bool, legal: &LegalActions) -> (actions: Vec<Action>)
    requires
        legal.raise_to matches Some((low, high)) ==> low <= high,
        forall|i: int| 0 <= i < shares@.len() ==> #[trigger] shares@[i] + call_cost(*legal) <= u64::MAX,
    ensures
        offers(actions@, shares@, include_all_in, *legal),
{
    let mut actions: Vec<Action> = Vec::new();
    if legal.can_fold {
        actions.push(Action::Fold);
    }
    if legal.can_check {
        actions.push(Action::Check);
    }
    if legal.call_cost.is_some() {
        actions.push(Action::Call);
    }
    assert(actions@ =~= passive_actions(*legal));
    let mut sizes: Vec<u64> = Vec::new();
    if let Some((low, high)) = legal.raise_to {
        let cost: u64 = match legal.call_cost {
            Some(cost) => cost,
            None => 0,
        };
        let mut i: usize = 0;
        while i < shares.len()
            invariant
                i <= shares@.len(),
                low <= high,
                cost == call_cost(*legal),
                legal.raise_to == Some((low, high)),
                forall|j: int| 0 <= j < shares@.len() ==> #[trigger] shares@[j] + call_cost(*legal) <= u64::MAX,
                rising(sizes@),
                forall|to: u64| #[trigger]
                    sizes@.contains(to) <==> is_offered(shares@.take(i as int), false, *legal, to),
            decreases shares@.len() - i,
        {
            let target: u64 = shares[i] + cost;
            let size: u64 = if target < low {
                low
            } else if target > high {
                high
            } else {
                target
            };
            let ghost shorter = shares@.take(i as int);
            let ghost longer = shares@.take(i + 1);
            insert_size(&mut sizes, size);
            proof {
                assert forall|to: u64| is_offered(longer, false, *legal, to) == (to == size || is_offered(
                    shorter,
                    false,
                    *legal,
                    to,
                )) by {
                    if is_offered(shorter, false, *legal, to) {
                        let j = choose|j: int|
                            0 <= j < shorter.len() && to == clamped(
                                #[trigger] shorter[j] + call_cost(*legal),
                                low as int,
                                high as int,
                            );
                        assert(longer[j] == shorter[j]);
                    }
                    if is_offered(longer, false, *legal, to) {
                        let j = choose|j: int|
                            0 <= j < longer.len() && to == clamped(
                                #[trigger] longer[j] + call_cost(*legal),
                                low as int,
                                high as int,
                            );
                        if j < i {
                            assert(shorter[j] == longer[j]);
                        }
                    }
                    assert(longer[i as int] == shares@[i as int]);
                }
            }
            i = i + 1;
        }
        assert(shares@.take(i as int) =~= shares@);
        if include_all_in {
            insert_size(&mut sizes, high);
        }
    }
    let ghost passive = actions@;
    let mut k: usize = 0;
    while k < sizes.len()
        invariant
            k <= sizes@.len(),
            actions@ == passive + sizes@.take(k as int).map_values(|to: u64| Action::RaiseTo(to)),
        decreases sizes@.len() - k,
    {
        actions.push(Action::RaiseTo(sizes[k]));
        proof {
            assert(sizes@.take(k + 1) =~= sizes@.take(k as int).push(sizes@[k as int]));
            assert(actions@ =~= passive + sizes@.take(k + 1).map_values(|to: u64| Action::RaiseTo(to)));
        }
        k = k + 1;
    }
    proof {
        assert(sizes@.take(k as int) =~= sizes@);
        assert(rising(sizes@));
    }
    actions
}

impl BetSizing {
    /// A compact tree: half pot, pot and all in.
    pub fn compact() -> (sizing: BetSizing)
        ensures
            sizing.fractions@ == seq![50u32, 100u32],
            sizing.include_all_in,
    {
        BetSizing { fractions: vec![50, 100], include_all_in: true }
    }

    /// A wider tree: a third of the pot to one and a half pots, and all in.
    pub fn wide() -> (sizing: BetSizing)
        ensures
            sizing.fractions@ == seq![33u32, 50u32, 75u32, 100u32, 150u32],
            sizing.include_all_in,
    {
        BetSizing { fractions: vec![33, 50, 75, 100, 150], include_all_in: true }
    }

    /// Whether every size of the spot can be counted.
    pub open spec fn countable(self, pot: u64, legal: LegalActions) -> bool {
        &&& pot + call_cost(legal) <= u64::MAX
        &&& forall|i: int|
            0 <= i < self.fractions@.len() ==> share(
                pot + call_cost(legal),
                #[trigger] self.fractions@[i] as int,
            ) + call_cost(legal) <= u64::MAX
    }

    /// The concrete actions this abstraction offers in a given spot.
    ///
    /// `pot` is everything already in the middle, without what the acting player
    /// still owes. Sizes that fall below the minimum raise or above the player's
    /// stack are clamped and de-duplicated, so the result is always legal and
    /// never offers the same amount twice.
    pub fn actions(&self, pot: u64, legal: &LegalActions) -> (actions: Vec<Action>)
        requires
            legal.raise_to matches Some((low, high)) ==> low <= high,
            self.countable(pot, *legal),
        ensures
            offers(
                actions@,
                shares(self.fractions@, pot, *legal),
                self.include_all_in,
                *legal,
            ),
    {
        let cost: u64 = match legal.call_cost {
            Some(cost) => cost,
            None => 0,
        };
        let after_call: u128 = pot as u128 + cost as u128;
        let mut sizes: Vec<u64> = Vec::new();
        let mut i: usize = 0;
        while i < self.fractions.len()
            invariant
                i <= self.fractions@.len(),
                sizes@.len() == i,
                cost == call_cost(*legal),
                after_call == pot + cost,
                after_call <= u64::MAX,
                self.countable(pot, *legal),
                forall|j: int|
                    0 <= j < i ==> #[trigger] sizes@[j] == share(
                        after_call as int,
                        self.fractions@[j] as int,
                    ),
            decreases self.fractions@.len() - i,
        {
            let chips: u128 = share_of(after_call, self.fractions[i]);
            assert(self.fractions@[i as int] == self.fractions[i as int]);
            sizes.push(chips as u64);
            i = i + 1;
        }
        assert(sizes@ =~= shares(self.fractions@, pot, *legal));
        assert forall|j: int| 0 <= j < sizes@.len() implies #[trigger] sizes@[j] + call_cost(*legal)
            <= u64::MAX by {
            assert(self.fractions@[j] >= 0);
        }
        sized_actions(&sizes, self.include_all_in, legal)
    }
}

impl Default for BetSizing {
    /// The compact tree.
    fn default() -> (sizing: BetSizing)
        ensures
            sizing.fractions@ == seq![50u32, 100u32],
            sizing.include_all_in,
    {
        BetSizing::compact()
    }
}

/// Everything offered is legal.
pub proof fn law_offered_actions_are_legal(
    actions: Seq<Action>,
    shares: Seq<u64>,
    include_all_in: bool,
    legal: LegalActions,
    i: int,
)
    requires
        legal.raise_to matches Some((low, high)) ==> low <= high,
        offers(actions, shares, include_all_in, legal),
        0 <= i < actions.len(),
    ensures
        legal.allows(actions[i]),
{
    let sizes = choose|sizes: Seq<u64>|
        {
            &&& #[trigger] rising(sizes)
            &&& forall|to: u64| #[trigger] sizes.contains(to) <==> is_offered(shares, include_all_in, legal, to)
            &&& actions == passive_actions(legal) + sizes.map_values(|to: u64| Action::RaiseTo(to))
        };
    let n = passive_actions(legal).len() as int;
    if i >= n {
        assert(sizes.contains(sizes[i - n]));
    }
}

impl ParseHandClassError {
    /// The words for the error.
    pub open spec fn words(self) -> Seq<char> {
        match self {
            ParseHandClassError::WrongLength(found) =>
                "expected 2 or 3 characters (e.g. \"AA\", \"AKs\"), got "@ + text::digits(
                found as int,
            ),
            ParseHandClassError::BadRank(c) => "invalid rank character "@ + text::quoted_char(c),
            ParseHandClassError::BadSuffix(c) => "expected 's' or 'o' suffix, got "@
                + text::quoted_char(c),
            ParseHandClassError::PairWithSuffix => "a pair cannot be suited or offsuit"@,
            ParseHandClassError::MissingSuffix => "a non-pair needs an 's' or 'o' suffix"@,
        }
    }

    /// What was wrong, in words.
    pub fn to_string(&self) -> (words: String)
        ensures
            words@ == self.words(),
    {
        let (start, rest): (&str, String) = match self {
            ParseHandClassError::WrongLength(found) => (
                "expected 2 or 3 characters (e.g. \"AA\", \"AKs\"), got ",
                text::decimal(*found as u64),
            ),
            ParseHandClassError::BadRank(c) => ("invalid rank character ", text::quote_char(*c)),
            ParseHandClassError::BadSuffix(c) => (
                "expected 's' or 'o' suffix, got ",
                text::quote_char(*c),
            ),
            ParseHandClassError::PairWithSuffix => {
                return String::from_str("a pair cannot be suited or offsuit");
            },
            ParseHandClassError::MissingSuffix => {
                return String::from_str("a non-pair needs an 's' or 'o' suffix");
            },
        };
        let mut words: String = String::from_str(start);
        words.append(rest.as_str());
        words
    }
}

/// The class of two cards has the higher of their ranks first, and is suited
/// exactly where the cards have one suit and different ranks.
pub proof fn law_a_class_is_of_its_cards(a: Card, b: Card)
    ensures
        ({
            let class = class_of(a, b);
            &&& class.high >= a.rank.order() && class.high >= b.rank.order()
            &&& class.low <= a.rank.order() && class.low <= b.rank.order()
            &&& class.high + class.low == a.rank.order() + b.rank.order()
            &&& class.suited <==> a.suit == b.suit && a.rank != b.rank
        }),
{
}

/// The text of a class: its ranks, the higher first, and an `s` or an `o` for
/// any but a pair.
pub proof fn law_class_text_says_whether_suited(class: ClassModel)
    requires
        class.sound(),
    ensures
        ({
            let text = class.text();
            &&& text[0] == card::rank_chars()[class.high] && text[1] == card::rank_chars()[class.low]
            &&& class.high == class.low <==> text.len() == 2
            &&& class.suited <==> text.len() == 3 && text[2] == 's'
            &&& class.high > class.low && !class.suited <==> text.len() == 3 && text[2] == 'o'
        }),
{
}

/// A pair is six holdings, a suited class four and any other twelve.
pub proof fn law_weights_of_classes(class: ClassModel)
    requires
        class.sound(),
    ensures
        class.weight() == (if class.suited {
            4int
        } else if class.high > class.low {
            12
        } else {
            6
        }),
{
}

/// Suited classes lie on one side of the grid's diagonal and the others on the
/// other: a row is the higher rank of a suited class and the lower of the rest.
pub proof fn law_suited_classes_lie_below_the_diagonal(class: ClassModel)
    requires
        class.sound(),
    ensures
        ({
            let (row, column) = (cell_of(class) / 13, cell_of(class) % 13);
            &&& class.suited <==> row > column
            &&& row + column == class.high + class.low
            &&& class.high == row || class.high == column
        }),
{
    law_classes_fill_the_grid(class, cell_of(class));
}

/// A raise that is offered is all in, or a call and, of a moderate pot, one of
/// the shares of the pot after it, to the nearest chip; where that is out of
/// bounds it is the bound that it is beyond.
pub proof fn law_offered_raises_are_shares_of_the_pot(
    fractions: Seq<u32>,
    include_all_in: bool,
    pot: u64,
    legal: LegalActions,
    to: u64,
)
    requires
        legal.raise_to matches Some((low, high)) && low <= high,
        is_offered(shares(fractions, pot, legal), include_all_in, legal, to),
        forall|i: int|
            0 <= i < fractions.len() ==> (pot + call_cost(legal)) * (#[trigger] fractions[i]) <= 0x4000_0000_0000,
        pot + call_cost(legal) <= 0x4000_0000_0000,
    ensures
        ({
            let (low, high) = legal.raise_to->Some_0;
            let cost = match legal.call_cost {
                Some(cost) => cost as int,
                None => 0,
            };
            &&& low <= to <= high
            &&& include_all_in && to == high || exists|i: int| {
                &&& 0 <= i < fractions.len()
                &&& {
                    let wanted = (pot + cost) * #[trigger] fractions[i];
                    ||| -50 <= 100 * (to - cost) - wanted <= 50
                    ||| to == low && 100 * (low - cost) >= wanted - 50
                    ||| to == high && 100 * (high - cost) <= wanted + 50
                }
            }
        }),
{
    let (low, high) = legal.raise_to->Some_0;
    let list = shares(fractions, pot, legal);
    if !(include_all_in && to == high) {
        let i = choose|i: int|
            0 <= i < list.len() && to == clamped(#[trigger] list[i] + call_cost(legal), low as int, high as int);
        let whole = pot + call_cost(legal);
        let percent = fractions[i] as int;
        precision::law_portions_are_to_the_nearest(whole, percent);
        precision::lemma_portion(whole, percent);
        assert(0 <= whole * percent <= 0x4000_0000_0000) by (nonlinear_arith)
            requires
                whole * percent <= 0x4000_0000_0000,
                0 <= whole,
                0 <= percent,
        ;
        assert(list[i] == share(whole, percent));
        assert(whole * fractions[i] == whole * percent);
    }
}

/// Every share of the pot is offered, kept within the bounds.
pub proof fn law_every_share_is_offered(
    fractions: Seq<u32>,
    include_all_in: bool,
    pot: u64,
    legal: LegalActions,
    at: int,
)
    requires
        legal.raise_to matches Some((low, high)) && low <= high,
        0 <= at < fractions.len(),
    ensures
        ({
            let (low, high) = legal.raise_to->Some_0;
            let list = shares(fractions, pot, legal);
            let wanted = list[at] + call_cost(legal);
            &&& low <= wanted <= high ==> is_offered(list, include_all_in, legal, wanted as u64)
            &&& wanted < low ==> is_offered(list, include_all_in, legal, low)
            &&& wanted > high ==> is_offered(list, include_all_in, legal, high)
            &&& include_all_in ==> is_offered(list, include_all_in, legal, high)
        }),
{
    let (low, high) = legal.raise_to->Some_0;
    let list = shares(fractions, pot, legal);
    assert(clamped(list[at] + call_cost(legal), low as int, high as int) == clamped(
        list[at] + call_cost(legal),
        low as int,
        high as int,
    ));
}

/// The weakest item is in the first bucket, and of as many items as buckets each
/// has its own.
pub proof fn law_buckets_go_up_from_the_weakest(values: Seq<u64>, buckets: int, i: int, j: int)
    requires
        0 <= i < values.len(),
        0 <= j < values.len(),
        0 < buckets,
    ensures
        (forall|k: int| 0 <= k < values.len() && k != i ==> values[i] < #[trigger] values[k]) ==> bucket(
            values,
            buckets,
            i,
        ) == 0,
        buckets == values.len() && values[i] < values[j] ==> bucket(values, buckets, i) < bucket(values, buckets, j),
{
    let n = values.len() as int;
    if forall|k: int| 0 <= k < values.len() && k != i ==> values[i] < #[trigger] values[k] {
        lemma_nothing_weaker(values, i, n);
        assert(0 * buckets == 0);
        vstd::arithmetic::div_mod::lemma_div_of0(n);
    }
    if buckets == n && values[i] < values[j] {
        lemma_strictly_weaker(values, i, j, n);
        let (a, b) = (weaker(values, i, n), weaker(values, j, n));
        vstd::arithmetic::div_mod::lemma_div_by_multiple(a, n);
        vstd::arithmetic::div_mod::lemma_div_by_multiple(b, n);
    }
}

proof fn lemma_nothing_weaker(values: Seq<u64>, i: int, k: int)
    requires
        0 <= i < values.len(),
        0 <= k <= values.len(),
        forall|k: int| 0 <= k < values.len() && k != i ==> values[i] < #[trigger] values[k],
    ensures
        weaker(values, i, k) == 0,
    decreases k,
{
    if k > 0 {
        lemma_nothing_weaker(values, i, k - 1);
        assert(k - 1 != i ==> values[i] < values[k - 1]);
    }
}

proof fn lemma_strictly_weaker(values: Seq<u64>, i: int, j: int, k: int)
    requires
        0 <= i < values.len(),
        0 <= j < values.len(),
        0 <= k <= values.len(),
        values[i] < values[j],
    ensures
        weaker(values, i, k) + (if i < k {
            1int
        } else {
            0
        }) <= weaker(values, j, k),
        0 <= weaker(values, i, k),
    decreases k,
{
    if k > 0 {
        lemma_strictly_weaker(values, i, j, k - 1);
    }
}

} // verus!
