//! Preflop strategy read from published charts.
//!
//! A chart is for one spot, a position and what has happened in front of it,
//! and holds one range for each action that is taken there. Whatever weight is
//! left over after every named action is folding, which makes a chart of one
//! action a complete strategy and an incomplete chart something that can be
//! reported: see [`Charts::gaps`].
//!
//! What a range is, these charts leave to their user.
use vstd::prelude::*;
use vstd::utf8::*;

use crate::betting::Street;
use crate::card;
use crate::table::PlayerView;
use crate::text;

verus! {

/// Positions, named as six-handed play names them.
#[derive(Debug, Clone, Copy, PartialEq, Eq, PartialOrd, Ord, Structural)]
pub enum Seat {
    Utg,
    Hj,
    Co,
    Btn,
    Sb,
    Bb,
}

impl Seat {
    /// The short name of the position.
    pub open spec fn words(self) -> Seq<char> {
        match self {
            Seat::Utg => "utg"@,
            Seat::Hj => "hj"@,
            Seat::Co => "co"@,
            Seat::Btn => "btn"@,
            Seat::Sb => "sb"@,
            Seat::Bb => "bb"@,
        }
    }

    /// The short name of the position.
    pub fn name(self) -> (name: &'static str)
        ensures
            name@ == self.words(),
    {
        match self {
            Seat::Utg => "utg",
            Seat::Hj => "hj",
            Seat::Co => "co",
            Seat::Btn => "btn",
            Seat::Sb => "sb",
            Seat::Bb => "bb",
        }
    }

    /// The position of that name.
    pub fn from_name(name: &str) -> (seat: Option<Seat>)
        ensures
            seat == seat_named(name@),
    {
        if text::same(name, "utg") {
            Some(Seat::Utg)
        } else if text::same(name, "hj") {
            Some(Seat::Hj)
        } else if text::same(name, "co") {
            Some(Seat::Co)
        } else if text::same(name, "btn") {
            Some(Seat::Btn)
        } else if text::same(name, "sb") {
            Some(Seat::Sb)
        } else if text::same(name, "bb") {
            Some(Seat::Bb)
        } else {
            None
        }
    }
}

/// The position of that name.
pub open spec fn seat_named(name: Seq<char>) -> Option<Seat> {
    if name == "utg"@ {
        Some(Seat::Utg)
    } else if name == "hj"@ {
        Some(Seat::Hj)
    } else if name == "co"@ {
        Some(Seat::Co)
    } else if name == "btn"@ {
        Some(Seat::Btn)
    } else if name == "sb"@ {
        Some(Seat::Sb)
    } else if name == "bb"@ {
        Some(Seat::Bb)
    } else {
        None
    }
}

/// What a chart may have a hand do.
#[derive(Debug, Clone, Copy, PartialEq, Eq, Structural)]
pub enum Move {
    Fold,
    Passive,
    Raise,
    Jam,
}

impl Move {
    /// The place of a move in the order that moves are listed in.
    pub open spec fn order(self) -> int {
        match self {
            Move::Fold => 0,
            Move::Passive => 1,
            Move::Raise => 2,
            Move::Jam => 3,
        }
    }

    /// The words for the move.
    pub open spec fn words(self) -> Seq<char> {
        match self {
            Move::Fold => "fold"@,
            Move::Passive => "passive"@,
            Move::Raise => "raise"@,
            Move::Jam => "jam"@,
        }
    }

    /// The name of the move.
    pub fn name(&self) -> (name: &'static str)
        ensures
            name@ == self.words(),
    {
        match self {
            Move::Fold => "fold",
            Move::Passive => "passive",
            Move::Raise => "raise",
            Move::Jam => "jam",
        }
    }
}

/// The place of a move in the order that moves are listed in.
pub fn order_of(action: Move) -> (order: u8)
    ensures
        order == action.order(),
{
    match action {
        Move::Fold => 0,
        Move::Passive => 1,
        Move::Raise => 2,
        Move::Jam => 3,
    }
}

/// The move that a chart file names.
pub open spec fn move_named(name: Seq<char>) -> Option<Move> {
    if name == "raise"@ {
        Some(Move::Raise)
    } else if name == "call"@ {
        Some(Move::Passive)
    } else if name == "jam"@ {
        Some(Move::Jam)
    } else {
        None
    }
}

/// The move that a chart file names. Names outside of these are no charts.
pub fn action_named(name: &str) -> (action: Option<Move>)
    ensures
        action == move_named(name@),
{
    if text::same(name, "raise") {
        Some(Move::Raise)
    } else if text::same(name, "call") {
        Some(Move::Passive)
    } else if text::same(name, "jam") {
        Some(Move::Jam)
    } else {
        None
    }
}

/// Which chart a decision belongs to: an unopened pot, one facing a single
/// raise, or coming in cold after two.
#[derive(Debug, Clone, Copy, PartialEq, Eq, PartialOrd, Ord, Structural)]
pub struct Spot {
    pub seat: Seat,
    /// The position that raised, if this is a chart for facing one.
    pub versus: Option<Seat>,
    /// Two players have raised and this seat has put in nothing but a blind.
    /// Every such spot shares one chart, whatever the seat.
    pub cold: bool,
}

impl Spot {
    /// The name of the spot: `utg`, `btn-vs-co`, `cold`.
    pub open spec fn words(self) -> Seq<char> {
        if self.cold {
            "cold"@
        } else {
            match self.versus {
                Some(versus) => self.seat.words() + "-vs-"@ + versus.words(),
                None => self.seat.words(),
            }
        }
    }

    /// The name of the spot: `utg`, `btn-vs-co`, `cold`.
    pub fn name(self) -> (name: String)
        ensures
            name@ == self.words(),
    {
        if self.cold {
            return String::from_str("cold");
        }
        let mut name: String = String::from_str(self.seat.name());
        match self.versus {
            Some(versus) => {
                name.append("-vs-");
                name.append(versus.name());
            },
            None => {},
        }
        name
    }

    /// A cold spot, which every position shares.
    pub fn cold_spot(seat: Seat) -> (spot: Spot)
        ensures
            spot == (Spot { seat, versus: None, cold: true }),
    {
        Spot { seat, versus: None, cold: true }
    }

    /// The spot of that name.
    pub fn from_name(name: &str) -> (spot: Option<Spot>)
        ensures
            spot == spot_named(name@),
    {
        if text::same(name, "cold") {
            return Some(Spot::cold_spot(Seat::Utg));
        }
        let chars: Vec<char> = card::chars_of(name);
        let mark: Vec<char> = card::chars_of("-vs-");
        proof {
            reveal_strlit("-vs-");
        }
        match text::find(&chars, &mark) {
            Some(at) => {
                let size: usize = chars.len();
                let seat: Option<Seat> = Seat::from_name(name.substring_char(0, at));
                let versus: Option<Seat> = Seat::from_name(name.substring_char(at + 4, size));
                match (seat, versus) {
                    (Some(seat), Some(versus)) => Some(
                        Spot { seat, versus: Some(versus), cold: false },
                    ),
                    _ => None,
                }
            },
            None => match Seat::from_name(name) {
                Some(seat) => Some(Spot { seat, versus: None, cold: false }),
                None => None,
            },
        }
    }
}

/// The spot of that name.
pub open spec fn spot_named(name: Seq<char>) -> Option<Spot> {
    if name == "cold"@ {
        Some(Spot { seat: Seat::Utg, versus: None, cold: true })
    } else {
        match text::found(name, "-vs-"@, 0) {
            Some(at) => match (
                seat_named(name.subrange(0, at)),
                seat_named(name.subrange(at + 4, name.len() as int)),
            ) {
                (Some(seat), Some(versus)) => Some(
                    Spot { seat, versus: Some(versus), cold: false },
                ),
                _ => None,
            },
            None => match seat_named(name) {
                Some(seat) => Some(Spot { seat, versus: None, cold: false }),
                None => None,
            },
        }
    }
}

proof fn lemma_seat_words(seat: Seat)
    ensures
        seat_named(seat.words()) == Some(seat),
        2 <= seat.words().len() <= 3,
        forall|i: int| 0 <= i < seat.words().len() ==> #[trigger] seat.words()[i] != '-',
        seat.words() != "cold"@,
{
    reveal_strlit("utg");
    reveal_strlit("hj");
    reveal_strlit("co");
    reveal_strlit("btn");
    reveal_strlit("sb");
    reveal_strlit("bb");
    reveal_strlit("cold");
    assert("utg"@.len() == 3 && "btn"@.len() == 3 && "cold"@.len() == 4);
    assert("hj"@.len() == 2 && "co"@.len() == 2 && "sb"@.len() == 2 && "bb"@.len() == 2);
    assert("utg"@[0] != "btn"@[0]);
    assert("hj"@[0] != "co"@[0] && "hj"@[0] != "sb"@[0] && "hj"@[0] != "bb"@[0]);
    assert("co"@[0] != "sb"@[0] && "co"@[0] != "bb"@[0] && "sb"@[0] != "bb"@[0]);
}

/// A name without the mark's first character does not hold the mark.
proof fn lemma_no_mark(name: Seq<char>, mark: Seq<char>, from: int)
    requires
        0 <= from,
        mark.len() > 0,
        forall|i: int| 0 <= i < name.len() ==> #[trigger] name[i] != mark[0],
    ensures
        text::found(name, mark, from) is None,
    decreases name.len() + 1 - from,
{
    if from + mark.len() <= name.len() {
        assert(name.subrange(from, from + mark.len())[0] != mark[0]);
        lemma_no_mark(name, mark, from + 1);
    }
}

/// The mark between two names is found where the first one ends.
proof fn lemma_mark_found(one: Seq<char>, mark: Seq<char>, other: Seq<char>, from: int)
    requires
        0 <= from <= one.len(),
        mark.len() > 0,
        forall|i: int| 0 <= i < one.len() ==> #[trigger] one[i] != mark[0],
    ensures
        text::found(one + mark + other, mark, from) == Some(one.len() as int),
    decreases one.len() - from,
{
    let whole = one + mark + other;
    if from < one.len() {
        assert(whole.subrange(from, from + mark.len())[0] == one[from]);
        lemma_mark_found(one, mark, other, from + 1);
    } else {
        assert(whole.subrange(from, from + mark.len()) =~= mark);
    }
}

/// Every spot is found again under its own name. Cold spots share theirs.
pub proof fn law_spot_names_round_trip(spot: Spot)
    ensures
        spot_named(spot.words()) == Some(
            if spot.cold {
                Spot { seat: Seat::Utg, versus: None, cold: true }
            } else {
                spot
            },
        ),
{
    if !spot.cold {
        reveal_strlit("-vs-");
        let (one, mark) = (spot.seat.words(), "-vs-"@);
        lemma_seat_words(spot.seat);
        match spot.versus {
            Some(versus) => {
                let other = versus.words();
                let whole = one + mark + other;
                lemma_seat_words(versus);
                lemma_mark_found(one, mark, other, 0);
                reveal_strlit("cold");
                assert(whole.len() > 4);
                assert(whole.subrange(0, one.len() as int) =~= one);
                assert(whole.subrange(one.len() as int + 4, whole.len() as int) =~= other);
            },
            None => {
                lemma_no_mark(one, mark, 0);
            },
        }
    }
}

/// A text with its letters in lower case.
pub open spec fn lower_case(text: Seq<char>) -> Seq<char> {
    text.map_values(|c: char| text::lowered(c))
}

/// The text of a letter from A to Z in lower case.
fn small_letter(c: char) -> (letter: &'static str)
    requires
        'A' <= c <= 'Z',
    ensures
        letter@ == seq![text::lowered(c)],
{
    let letters: &'static str = "abcdefghijklmnopqrstuvwxyz";
    let place: usize = (c as u32 - 65) as usize;
    proof {
        reveal_strlit("abcdefghijklmnopqrstuvwxyz");
        assert(letters@[place as int] == text::lowered(c));
    }
    let letter: &'static str = letters.substring_char(place, place + 1);
    assert(letter@ =~= seq![text::lowered(c)]);
    letter
}

/// A text with its letters from A to Z in lower case.
fn in_lower_case(text: &str) -> (lower: String)
    ensures
        lower@ == lower_case(text@),
{
    let chars: Vec<char> = card::chars_of(text);
    let mut lower: String = String::new();
    let mut i: usize = 0;
    assert(lower@ =~= lower_case(text@.take(0)));
    while i < chars.len()
        invariant
            i <= chars@.len(),
            chars@ == text@,
            lower@ == lower_case(text@.take(i as int)),
        decreases chars@.len() - i,
    {
        let c: char = chars[i];
        let ghost before = lower@;
        if 'A' <= c && c <= 'Z' {
            lower.append(small_letter(c));
        } else {
            lower.append(text.substring_char(i, i + 1));
        }
        assert(lower@ =~= before.push(text::lowered(c)));
        assert(lower@ =~= lower_case(text@.take(i + 1)));
        i = i + 1;
    }
    assert(text@.take(i as int) =~= text@);
    lower
}

/// The last place of a character among the first `count`.
pub open spec fn last_place(text: Seq<char>, wanted: char, count: int) -> Option<int>
    decreases count,
{
    if count <= 0 {
        None
    } else if text[count - 1] == wanted {
        Some(count - 1)
    } else {
        last_place(text, wanted, count - 1)
    }
}

/// What a file named `<spot>.<action>` holds.
pub open spec fn file_named(stem: Seq<char>) -> Option<(Spot, Move)> {
    let lower = lower_case(stem);
    match last_place(lower, '.', lower.len() as int) {
        None => None,
        Some(at) => match (
            spot_named(lower.subrange(0, at)),
            move_named(lower.subrange(at + 1, lower.len() as int)),
        ) {
            (Some(spot), Some(action)) => Some((spot, action)),
            _ => None,
        },
    }
}

/// What a chart file holds, by its name without the ending: `utg.raise`,
/// `btn-vs-co.call`. A file of any other name is not a chart.
pub fn chart_file(stem: &str) -> (held: Option<(Spot, Move)>)
    ensures
        held == file_named(stem@),
{
    let lower: String = in_lower_case(stem);
    let chars: Vec<char> = card::chars_of(lower.as_str());
    let size: usize = chars.len();
    let mut left: usize = size;
    while left > 0
        invariant
            left <= size,
            size == chars@.len(),
            chars@ == lower@,
            lower@ == lower_case(stem@),
            last_place(chars@, '.', size as int) == last_place(chars@, '.', left as int),
        decreases left,
    {
        if chars[left - 1] == '.' {
            let spot: Option<Spot> = Spot::from_name(lower.as_str().substring_char(0, left - 1));
            let action: Option<Move> = action_named(lower.as_str().substring_char(left, size));
            return match (spot, action) {
                (Some(spot), Some(action)) => Some((spot, action)),
                _ => None,
            };
        }
        left = left - 1;
    }
    None
}

/// The strategy of one spot: a range for each action that is taken in it.
#[derive(Debug, Clone, PartialEq, Eq)]
pub struct Chart<R> {
    pub by_action: Vec<(Move, R)>,
}

/// Whether actions are listed in order, each once.
pub open spec fn listed<R>(by_action: Seq<(Move, R)>) -> bool {
    forall|i: int, j: int|
        0 <= i < j < by_action.len() ==> (#[trigger] by_action[i]).0.order() < (
        #[trigger] by_action[j]).0.order()
}

/// The range that is held for an action.
pub open spec fn held_for<R>(by_action: Seq<(Move, R)>, action: Move) -> Option<R>
    decreases by_action.len(),
{
    if by_action.len() == 0 {
        None
    } else if by_action.last().0 == action {
        Some(by_action.last().1)
    } else {
        held_for(by_action.drop_last(), action)
    }
}

/// What is listed at a place is what is held for its action.
proof fn lemma_held_at<R>(by_action: Seq<(Move, R)>, at: int)
    requires
        listed(by_action),
        0 <= at < by_action.len(),
    ensures
        held_for(by_action, by_action[at].0) == Some(by_action[at].1),
    decreases by_action.len(),
{
    if at < by_action.len() - 1 {
        assert(by_action[at].0.order() < by_action[by_action.len() - 1].0.order());
        lemma_held_at(by_action.drop_last(), at);
    }
}

/// An action that is listed nowhere is not held.
proof fn lemma_not_held<R>(by_action: Seq<(Move, R)>, action: Move)
    requires
        forall|i: int| 0 <= i < by_action.len() ==> (#[trigger] by_action[i]).0 != action,
    ensures
        held_for(by_action, action) is None,
    decreases by_action.len(),
{
    if by_action.len() > 0 {
        lemma_not_held(by_action.drop_last(), action);
    }
}

/// Whether an action is held is whether it is listed.
proof fn lemma_held_somewhere<R>(by_action: Seq<(Move, R)>, action: Move) -> (at: int)
    requires
        held_for(by_action, action) is Some,
    ensures
        0 <= at < by_action.len(),
        by_action[at].0 == action,
        held_for(by_action, action) == Some(by_action[at].1),
    decreases by_action.len(),
{
    if by_action.last().0 == action {
        by_action.len() - 1
    } else {
        lemma_held_somewhere(by_action.drop_last(), action)
    }
}

impl<R> Chart<R> {
    /// Whether the actions are in order, each once.
    pub open spec fn sound(self) -> bool {
        listed(self.by_action@)
    }

    /// The range that is held for an action.
    pub open spec fn held(self, action: Move) -> Option<R> {
        held_for(self.by_action@, action)
    }

    /// A chart that names no action.
    pub fn new() -> (chart: Chart<R>)
        ensures
            chart.sound(),
            chart.by_action@.len() == 0,
    {
        Chart { by_action: Vec::new() }
    }

    /// Adds the range of an action, in place of one held for it already.
    pub fn with(self, action: Move, range: R) -> (chart: Chart<R>)
        requires
            self.sound(),
        ensures
            chart.sound(),
            forall|other: Move| #[trigger]
                chart.held(other) == (if other == action {
                    Some(range)
                } else {
                    self.held(other)
                }),
    {
        let ghost before = self.by_action@;
        let mut by_action: Vec<(Move, R)> = self.by_action;
        let order: u8 = order_of(action);
        let mut at: usize = 0;
        while at < by_action.len() && order_of(by_action[at].0) < order
            invariant
                at <= by_action@.len(),
                by_action@ == before,
                order == action.order(),
                forall|i: int| 0 <= i < at ==> (#[trigger] before[i]).0.order() < order,
            decreases by_action@.len() - at,
        {
            at = at + 1;
        }
        if at < by_action.len() && order_of(by_action[at].0) == order {
            by_action.set(at, (action, range));
        } else {
            by_action.insert(at, (action, range));
        }
        proof {
            lemma_placed(before, by_action@, at as int, action, range);
        }
        Chart { by_action }
    }

    /// The actions that the chart names, in order.
    pub fn actions(&self) -> (actions: Vec<Move>)
        ensures
            actions@ == Seq::new(self.by_action@.len(), |i: int| self.by_action@[i].0),
    {
        let mut actions: Vec<Move> = Vec::new();
        let mut i: usize = 0;
        while i < self.by_action.len()
            invariant
                i <= self.by_action@.len(),
                actions@ == Seq::new(i as nat, |k: int| self.by_action@[k].0),
            decreases self.by_action@.len() - i,
        {
            actions.push(self.by_action[i].0);
            assert(actions@ =~= Seq::new((i + 1) as nat, |k: int| self.by_action@[k].0));
            i = i + 1;
        }
        actions
    }

    /// Whether the chart names an action.
    pub fn names(&self, action: Move) -> (named: bool)
        ensures
            named == (self.held(action) is Some),
    {
        let mut i: usize = 0;
        while i < self.by_action.len()
            invariant
                i <= self.by_action@.len(),
                forall|k: int| 0 <= k < i ==> (#[trigger] self.by_action@[k]).0 != action,
            decreases self.by_action@.len() - i,
        {
            if self.by_action[i].0 == action {
                proof {
                    if self.held(action) is None {
                        lemma_held_or_not(self.by_action@, action, i as int);
                    }
                }
                return true;
            }
            i = i + 1;
        }
        proof {
            lemma_not_held(self.by_action@, action);
        }
        false
    }
}

/// An action that is listed somewhere is held.
proof fn lemma_held_or_not<R>(by_action: Seq<(Move, R)>, action: Move, at: int)
    requires
        0 <= at < by_action.len(),
        by_action[at].0 == action,
    ensures
        held_for(by_action, action) is Some,
    decreases by_action.len(),
{
    if by_action.last().0 != action {
        lemma_held_or_not(by_action.drop_last(), action, at);
    }
}

/// Two moves in the same place of the order are the same move.
proof fn lemma_order_tells(one: Move, other: Move)
    ensures
        one.order() == other.order() <==> one == other,
{
}

/// Putting a range in its place changes what is held for its action alone.
proof fn lemma_placed<R>(
    before: Seq<(Move, R)>,
    after: Seq<(Move, R)>,
    at: int,
    action: Move,
    range: R,
)
    requires
        listed(before),
        0 <= at <= before.len(),
        forall|i: int| 0 <= i < at ==> (#[trigger] before[i]).0.order() < action.order(),
        at < before.len() ==> before[at].0.order() >= action.order(),
        after == (if at < before.len() && before[at].0.order() == action.order() {
            before.update(at, (action, range))
        } else {
            before.insert(at, (action, range))
        }),
    ensures
        listed(after),
        forall|other: Move| #[trigger]
            held_for(after, other) == (if other == action {
                Some(range)
            } else {
                held_for(before, other)
            }),
{
    let replaced = at < before.len() && before[at].0.order() == action.order();
    let back = |i: int|
        if i < at || replaced {
            i
        } else {
            i - 1
        };
    assert forall|i: int, j: int| 0 <= i < j < after.len() implies (#[trigger] after[i]).0.order() < (
    #[trigger] after[j]).0.order() by {
        if i != at && j != at {
            assert(before[back(i)].0.order() < before[back(j)].0.order());
        } else if i == at {
            if at < before.len() && back(j) > at {
                assert(before[at].0.order() < before[back(j)].0.order());
            }
        }
    }
    assert forall|other: Move| #[trigger] held_for(after, other) == (if other == action {
        Some(range)
    } else {
        held_for(before, other)
    }) by {
        if other == action {
            assert(after[at] == (action, range));
            lemma_held_at(after, at);
        } else if held_for(before, other) is Some {
            let k = lemma_held_somewhere(before, other);
            lemma_order_tells(other, action);
            let moved = if k < at || replaced {
                k
            } else {
                k + 1
            };
            assert(after[moved] == before[k]);
            lemma_held_at(after, moved);
        } else {
            assert forall|i: int| 0 <= i < after.len() implies (#[trigger] after[i]).0 != other by {
                if i != at && after[i].0 == other {
                    assert(before[back(i)] == after[i]);
                    lemma_held_or_not(before, other, back(i));
                }
            }
            lemma_not_held(after, other);
        }
    }
}

impl<R> Default for Chart<R> {
    /// A chart that names no action.
    fn default() -> (chart: Chart<R>)
        ensures
            chart.sound(),
            chart.by_action@.len() == 0,
    {
        Chart::new()
    }
}

/// How often each action is taken with a hand: `shares` parts out of `of`.
#[derive(Debug, Clone, PartialEq, Eq)]
pub struct Mix {
    pub shares: Vec<(Move, u64)>,
    pub of: u64,
}

/// The sum of weights.
pub open spec fn sum_of(weights: Seq<u64>) -> int
    decreases weights.len(),
{
    if weights.len() == 0 {
        0
    } else {
        sum_of(weights.drop_last()) + weights.last()
    }
}

/// The actions with a weight, in order.
pub open spec fn played<R>(by_action: Seq<(Move, R)>, weights: Seq<u64>, count: int) -> Seq<
    (Move, u64),
>
    decreases count,
{
    if count <= 0 {
        Seq::empty()
    } else {
        let before = played(by_action, weights, count - 1);
        if weights[count - 1] > 0 {
            before.push((by_action[count - 1].0, weights[count - 1]))
        } else {
            before
        }
    }
}

/// What is folded: the part of the whole that is left over, if any is.
pub open spec fn folded(total: int, whole: u64) -> Seq<(Move, u64)> {
    if total < whole {
        seq![(Move::Fold, (whole - total) as u64)]
    } else {
        Seq::empty()
    }
}

proof fn lemma_sum_of_prefix(weights: Seq<u64>, count: int)
    requires
        0 <= count <= weights.len(),
    ensures
        0 <= sum_of(weights.take(count)) <= sum_of(weights),
    decreases weights.len(),
{
    if count == weights.len() {
        assert(weights.take(count) =~= weights);
        if count > 0 {
            lemma_sum_of_prefix(weights.drop_last(), count - 1);
        }
    } else {
        assert(weights.take(count) =~= weights.drop_last().take(count));
        lemma_sum_of_prefix(weights.drop_last(), count);
    }
}

impl<R> Chart<R> {
    /// How often each action is taken with a hand whose weight in each action's
    /// range is given, in parts of `whole`.
    ///
    /// Folding is what is left over and comes first. Ranges are rounded one by
    /// one, so that their parts can come to a little over the whole; they are
    /// then all scaled down.
    pub fn strategy(&self, weights: &Vec<u64>, whole: u64) -> (mix: Mix)
        requires
            weights@.len() == self.by_action@.len(),
            sum_of(weights@) <= u64::MAX,
        ensures
            mix.of == (if sum_of(weights@) > whole {
                sum_of(weights@)
            } else {
                whole as int
            }),
            mix.shares@ == folded(sum_of(weights@), whole) + played(
                self.by_action@,
                weights@,
                weights@.len() as int,
            ),
    {
        let mut total: u64 = 0;
        let mut i: usize = 0;
        assert(weights@.take(0) =~= Seq::empty());
        while i < weights.len()
            invariant
                i <= weights@.len(),
                sum_of(weights@) <= u64::MAX,
                total == sum_of(weights@.take(i as int)),
            decreases weights@.len() - i,
        {
            proof {
                lemma_sum_of_prefix(weights@, i + 1);
                assert(weights@.take(i + 1).drop_last() =~= weights@.take(i as int));
            }
            total = total + weights[i];
            i = i + 1;
        }
        assert(weights@.take(i as int) =~= weights@);
        let mut shares: Vec<(Move, u64)> = Vec::new();
        if total < whole {
            shares.push((Move::Fold, whole - total));
        }
        let ghost first = folded(sum_of(weights@), whole);
        assert(shares@ =~= first);
        let mut k: usize = 0;
        assert(first + played(self.by_action@, weights@, 0) =~= first);
        while k < weights.len()
            invariant
                k <= weights@.len(),
                weights@.len() == self.by_action@.len(),
                shares@ == first + played(self.by_action@, weights@, k as int),
            decreases weights@.len() - k,
        {
            let ghost before = shares@;
            if weights[k] > 0 {
                shares.push((self.by_action[k].0, weights[k]));
            }
            assert(shares@ =~= first + played(self.by_action@, weights@, k + 1));
            k = k + 1;
        }
        Mix {
            shares,
            of: if total > whole {
                total
            } else {
                whole
            },
        }
    }
}

/// The parts of a mix.
pub open spec fn parts(shares: Seq<(Move, u64)>) -> int
    decreases shares.len(),
{
    if shares.len() == 0 {
        0
    } else {
        parts(shares.drop_last()) + shares.last().1
    }
}

proof fn lemma_parts_played<R>(
    first: Seq<(Move, u64)>,
    by_action: Seq<(Move, R)>,
    weights: Seq<u64>,
    count: int,
)
    requires
        0 <= count <= weights.len(),
    ensures
        parts(first + played(by_action, weights, count)) == parts(first) + sum_of(
            weights.take(count),
        ),
    decreases count,
{
    if count > 0 {
        lemma_parts_played(first, by_action, weights, count - 1);
        assert(weights.take(count).drop_last() =~= weights.take(count - 1));
        let before = first + played(by_action, weights, count - 1);
        let after = first + played(by_action, weights, count);
        if weights[count - 1] > 0 {
            assert(after.drop_last() =~= before);
        } else {
            assert(after =~= before);
        }
    } else {
        assert(first + played(by_action, weights, 0) =~= first);
        assert(weights.take(0) =~= Seq::empty());
    }
}

/// A strategy is whole whatever the ranges say: its parts come to all of it,
/// none of them is empty, and no fold is left where the ranges take up more
/// than there is.
pub proof fn law_a_mix_is_whole<R>(by_action: Seq<(Move, R)>, weights: Seq<u64>, whole: u64)
    requires
        weights.len() == by_action.len(),
    ensures
        ({
            let total = sum_of(weights);
            let shares = folded(total, whole) + played(by_action, weights, weights.len() as int);
            &&& parts(shares) == (if total > whole {
                total
            } else {
                whole as int
            })
            &&& total >= whole ==> shares == played(by_action, weights, weights.len() as int)
        }),
{
    let total = sum_of(weights);
    let first = folded(total, whole);
    lemma_parts_played(first, by_action, weights, weights.len() as int);
    assert(weights.take(weights.len() as int) =~= weights);
    lemma_sum_of_prefix(weights, 0);
    if total < whole {
        assert(first.drop_last() =~= Seq::empty());
        assert(parts(Seq::<(Move, u64)>::empty()) == 0);
        assert(parts(first) == whole - total);
    } else {
        assert(parts(first) == 0);
        let all = played(by_action, weights, weights.len() as int);
        assert(first + all =~= all);
    }
}

/// Every chart that is held, by the name of its spot.
#[derive(Debug, Clone, PartialEq, Eq)]
pub struct Charts<R> {
    pub spots: Vec<(String, Chart<R>)>,
}

/// Whether names are in order, each once.
pub open spec fn alphabetical<R>(spots: Seq<(String, Chart<R>)>) -> bool {
    forall|i: int, j: int|
        0 <= i < j < spots.len() ==> text::precedes((#[trigger] spots[i]).0@, (#[trigger] spots[j]).0@)
}

/// The chart of that name.
pub open spec fn chart_named<R>(spots: Seq<(String, Chart<R>)>, name: Seq<char>) -> Option<Chart<R>>
    decreases spots.len(),
{
    if spots.len() == 0 {
        None
    } else if spots.last().0@ == name {
        Some(spots.last().1)
    } else {
        chart_named(spots.drop_last(), name)
    }
}

proof fn lemma_chart_at<R>(spots: Seq<(String, Chart<R>)>, at: int)
    requires
        alphabetical(spots),
        0 <= at < spots.len(),
    ensures
        chart_named(spots, spots[at].0@) == Some(spots[at].1),
    decreases spots.len(),
{
    if at < spots.len() - 1 {
        text::lemma_order_is_total(spots[at].0@, spots.last().0@);
        assert(text::precedes(spots[at].0@, spots[spots.len() - 1].0@));
        lemma_chart_at(spots.drop_last(), at);
    }
}

proof fn lemma_no_chart<R>(spots: Seq<(String, Chart<R>)>, name: Seq<char>)
    requires
        forall|i: int| 0 <= i < spots.len() ==> (#[trigger] spots[i]).0@ != name,
    ensures
        chart_named(spots, name) is None,
    decreases spots.len(),
{
    if spots.len() > 0 {
        lemma_no_chart(spots.drop_last(), name);
    }
}

proof fn lemma_chart_somewhere<R>(spots: Seq<(String, Chart<R>)>, name: Seq<char>) -> (at: int)
    requires
        chart_named(spots, name) is Some,
    ensures
        0 <= at < spots.len(),
        spots[at].0@ == name,
        chart_named(spots, name) == Some(spots[at].1),
    decreases spots.len(),
{
    if spots.last().0@ == name {
        spots.len() - 1
    } else {
        lemma_chart_somewhere(spots.drop_last(), name)
    }
}

proof fn lemma_some_chart<R>(spots: Seq<(String, Chart<R>)>, name: Seq<char>, at: int)
    requires
        0 <= at < spots.len(),
        spots[at].0@ == name,
    ensures
        chart_named(spots, name) is Some,
    decreases spots.len(),
{
    if spots.last().0@ != name {
        lemma_some_chart(spots.drop_last(), name, at);
    }
}

/// Putting a chart in its place changes what is held under its name alone.
proof fn lemma_chart_placed<R>(
    before: Seq<(String, Chart<R>)>,
    after: Seq<(String, Chart<R>)>,
    at: int,
    name: String,
    chart: Chart<R>,
)
    requires
        alphabetical(before),
        0 <= at <= before.len(),
        forall|i: int| 0 <= i < at ==> text::precedes((#[trigger] before[i]).0@, name@),
        at < before.len() ==> !text::precedes(before[at].0@, name@),
        after == (if at < before.len() && before[at].0@ == name@ {
            before.update(at, (name, chart))
        } else {
            before.insert(at, (name, chart))
        }),
    ensures
        alphabetical(after),
        forall|other: Seq<char>| #[trigger]
            chart_named(after, other) == (if other == name@ {
                Some(chart)
            } else {
                chart_named(before, other)
            }),
{
    let replaced = at < before.len() && before[at].0@ == name@;
    let back = |i: int|
        if i < at || replaced {
            i
        } else {
            i - 1
        };
    assert forall|i: int, j: int| 0 <= i < j < after.len() implies text::precedes(
        (#[trigger] after[i]).0@,
        (#[trigger] after[j]).0@,
    ) by {
        if i != at && j != at {
            assert(text::precedes(before[back(i)].0@, before[back(j)].0@));
        } else if i == at {
            if at < before.len() {
                text::lemma_order_is_total(before[at].0@, name@);
                if back(j) > at {
                    assert(text::precedes(before[at].0@, before[back(j)].0@));
                    if !replaced {
                        text::lemma_order_is_transitive(name@, before[at].0@, before[back(j)].0@);
                    }
                }
            }
        }
    }
    assert forall|other: Seq<char>| #[trigger] chart_named(after, other) == (if other == name@ {
        Some(chart)
    } else {
        chart_named(before, other)
    }) by {
        if other == name@ {
            assert(after[at] == (name, chart));
            lemma_chart_at(after, at);
        } else if chart_named(before, other) is Some {
            let k = lemma_chart_somewhere(before, other);
            let moved = if k < at || replaced {
                k
            } else {
                k + 1
            };
            assert(after[moved] == before[k]);
            lemma_chart_at(after, moved);
        } else {
            assert forall|i: int| 0 <= i < after.len() implies (#[trigger] after[i]).0@ != other by {
                if i != at && after[i].0@ == other {
                    assert(before[back(i)] == after[i]);
                    lemma_some_chart(before, other, back(i));
                }
            }
            lemma_no_chart(after, other);
        }
    }
}

impl<R> Charts<R> {
    /// Whether the names are in order, each once.
    pub open spec fn sound(self) -> bool {
        &&& alphabetical(self.spots@)
        &&& forall|i: int| 0 <= i < self.spots@.len() ==> (#[trigger] self.spots@[i]).1.sound()
    }

    /// The chart that is held for a spot.
    pub open spec fn held(self, spot: Spot) -> Option<Chart<R>> {
        chart_named(self.spots@, spot.words())
    }

    /// No charts.
    pub fn new() -> (charts: Charts<R>)
        ensures
            charts.sound(),
            charts.spots@.len() == 0,
    {
        Charts { spots: Vec::new() }
    }

    /// Where a name is, or where it belongs.
    fn place_of(&self, name: &Vec<char>) -> (at: usize)
        requires
            self.sound(),
        ensures
            at <= self.spots@.len(),
            forall|i: int| 0 <= i < at ==> text::precedes((#[trigger] self.spots@[i]).0@, name@),
            at < self.spots@.len() ==> !text::precedes(self.spots@[at as int].0@, name@),
    {
        let mut at: usize = 0;
        while at < self.spots.len() && text::is_before(
            &card::chars_of(self.spots[at].0.as_str()),
            name,
        )
            invariant
                at <= self.spots@.len(),
                forall|i: int|
                    0 <= i < at ==> text::precedes((#[trigger] self.spots@[i]).0@, name@),
            decreases self.spots@.len() - at,
        {
            at = at + 1;
        }
        at
    }

    /// Holds a chart for a spot, in place of one held for it already.
    pub fn insert(&mut self, spot: Spot, chart: Chart<R>)
        requires
            old(self).sound(),
            chart.sound(),
        ensures
            final(self).sound(),
            forall|name: Seq<char>| #[trigger]
                chart_named(final(self).spots@, name) == (if name == spot.words() {
                    Some(chart)
                } else {
                    chart_named(old(self).spots@, name)
                }),
    {
        let ghost before = self.spots@;
        let name: String = spot.name();
        let ghost (key, held) = (name, chart);
        let at: usize = self.place_of(&card::chars_of(name.as_str()));
        if at < self.spots.len() && text::same(self.spots[at].0.as_str(), name.as_str()) {
            self.spots.set(at, (name, chart));
        } else {
            self.spots.insert(at, (name, chart));
        }
        proof {
            lemma_chart_placed(before, self.spots@, at as int, key, held);
        }
    }

    /// Holds a range for an action in a spot, beside the ranges that the chart of
    /// the spot has for other actions.
    pub fn hold(&mut self, spot: Spot, action: Move, range: R)
        requires
            old(self).sound(),
        ensures
            final(self).sound(),
            old(self).holding(*final(self), spot, action, range),
    {
        let ghost before = self.spots@;
        let name: String = spot.name();
        let ghost key = name;
        let at: usize = self.place_of(&card::chars_of(name.as_str()));
        if at < self.spots.len() && text::same(self.spots[at].0.as_str(), name.as_str()) {
            proof {
                lemma_chart_at(before, at as int);
            }
            let (_, held): (String, Chart<R>) = self.spots.remove(at);
            let chart: Chart<R> = held.with(action, range);
            let ghost placed = chart;
            self.spots.insert(at, (name, chart));
            proof {
                assert(self.spots@ =~= before.update(at as int, (key, placed)));
                lemma_chart_placed(before, self.spots@, at as int, key, placed);
            }
        } else {
            let chart: Chart<R> = Chart::new().with(action, range);
            let ghost placed = chart;
            self.spots.insert(at, (name, chart));
            proof {
                lemma_chart_placed(before, self.spots@, at as int, key, placed);
                if chart_named(before, key@) is Some {
                    let found = lemma_chart_somewhere(before, key@);
                    text::lemma_order_is_total(before[found].0@, key@);
                    if found > at {
                        assert(text::precedes(before[at as int].0@, before[found].0@));
                    }
                }
            }
        }
    }

    /// Whether charts are others with one more range held.
    pub open spec fn holding(self, after: Charts<R>, spot: Spot, action: Move, range: R) -> bool {
        &&& forall|name: Seq<char>|
            name != spot.words() ==> #[trigger] chart_named(after.spots@, name) == chart_named(
                self.spots@,
                name,
            )
        &&& after.held(spot) matches Some(chart) && chart.sound() && forall|other: Move|
            #[trigger] chart.held(other) == (if other == action {
                Some(range)
            } else {
                match self.held(spot) {
                    Some(before) => before.held(other),
                    None => None,
                }
            })
    }

    /// Takes the range out of a file, if the name of the file says where it
    /// belongs. Anything else is passed over, so that notes can stand in the
    /// same folder.
    pub fn add_file(&mut self, stem: &str, range: R) -> (added: bool)
        requires
            old(self).sound(),
        ensures
            final(self).sound(),
            added == (file_named(stem@) is Some),
            match file_named(stem@) {
                Some((spot, action)) => old(self).holding(*final(self), spot, action, range),
                None => *final(self) == *old(self),
            },
    {
        match chart_file(stem) {
            Some((spot, action)) => {
                self.hold(spot, action, range);
                true
            },
            None => false,
        }
    }

    /// The chart of a spot.
    pub fn get(&self, spot: Spot) -> (chart: Option<&Chart<R>>)
        requires
            self.sound(),
        ensures
            match chart {
                Some(chart) => self.held(spot) == Some(*chart),
                None => self.held(spot) is None,
            },
    {
        let name: String = spot.name();
        let at: usize = self.place_of(&card::chars_of(name.as_str()));
        if at < self.spots.len() && text::same(self.spots[at].0.as_str(), name.as_str()) {
            proof {
                lemma_chart_at(self.spots@, at as int);
            }
            Some(&self.spots[at].1)
        } else {
            proof {
                assert forall|i: int| 0 <= i < self.spots@.len() implies (
                #[trigger] self.spots@[i]).0@ != name@ by {
                    text::lemma_order_is_total(self.spots@[i].0@, name@);
                    if i >= at {
                        text::lemma_order_is_total(self.spots@[at as int].0@, name@);
                        if i > at {
                            assert(text::precedes(self.spots@[at as int].0@, self.spots@[i].0@));
                            if self.spots@[i].0@ == name@ {
                                assert(text::precedes(self.spots@[at as int].0@, name@));
                            }
                        }
                    }
                }
                lemma_no_chart(self.spots@, name@);
            }
            None
        }
    }

    /// Whether there are no charts.
    pub fn is_empty(&self) -> (empty: bool)
        ensures
            empty == (self.spots@.len() == 0),
    {
        self.spots.len() == 0
    }

    /// The charts by name, in order.
    pub fn spots(&self) -> (spots: &Vec<(String, Chart<R>)>)
        ensures
            spots@ == self.spots@,
    {
        &self.spots
    }
}

/// Whether a text begins with another.
pub open spec fn begins_with(text: Seq<char>, start: Seq<char>) -> bool {
    start.len() <= text.len() && text.subrange(0, start.len() as int) == start
}

/// What is missing from a chart, if anything is. The big blind defends mostly
/// by calling; everywhere else a raising range is all there is to a strategy.
pub open spec fn gap<R>(name: Seq<char>, chart: Chart<R>) -> Option<Seq<char>> {
    if name == "cold"@ {
        None
    } else if begins_with(name, "bb-vs-"@) {
        if chart.held(Move::Passive) is None {
            Some(
                name
                    + ": no calling range. The big blind defends mostly by calling, so this folds most of the range it should play."@,
            )
        } else {
            None
        }
    } else if text::found(name, "-vs-"@, 0) is Some && chart.held(Move::Raise) is None {
        Some(
            name
                + ": no three-betting range, and outside the big blind three-bet-or-fold is the whole strategy"@,
        )
    } else {
        None
    }
}

/// What is missing from the first `count` charts.
pub open spec fn gaps_in<R>(spots: Seq<(String, Chart<R>)>, count: int) -> Seq<Seq<char>>
    decreases count,
{
    if count <= 0 {
        Seq::empty()
    } else {
        let before = gaps_in(spots, count - 1);
        match gap(spots[count - 1].0@, spots[count - 1].1) {
            Some(words) => before.push(words),
            None => before,
        }
    }
}

/// What is missing from a chart, if anything is.
fn find_gap<R>(name: &String, chart: &Chart<R>) -> (missing: Option<String>)
    ensures
        match missing {
            Some(words) => gap(name@, *chart) == Some(words@),
            None => gap(name@, *chart) is None,
        },
{
    if text::same(name.as_str(), "cold") {
        return None;
    }
    let chars: Vec<char> = card::chars_of(name.as_str());
    let defending: bool = text::stands_at(&chars, &card::chars_of("bb-vs-"), 0);
    let facing: bool = text::find(&chars, &card::chars_of("-vs-")).is_some();
    if defending {
        if chart.names(Move::Passive) {
            None
        } else {
            let mut words: String = name.clone();
            words.append(
                ": no calling range. The big blind defends mostly by calling, so this folds most of the range it should play.",
            );
            Some(words)
        }
    } else if facing && !chart.names(Move::Raise) {
        let mut words: String = name.clone();
        words.append(
            ": no three-betting range, and outside the big blind three-bet-or-fold is the whole strategy",
        );
        Some(words)
    } else {
        None
    }
}

/// Texts as their characters.
pub open spec fn all_words(texts: Seq<String>) -> Seq<Seq<char>> {
    texts.map_values(|text: String| text@)
}

impl<R> Charts<R> {
    /// The spots that are held but not complete, in words.
    pub fn gaps(&self) -> (gaps: Vec<String>)
        ensures
            all_words(gaps@) == gaps_in(self.spots@, self.spots@.len() as int),
    {
        let mut gaps: Vec<String> = Vec::new();
        let mut i: usize = 0;
        assert(all_words(gaps@) =~= gaps_in(self.spots@, 0));
        while i < self.spots.len()
            invariant
                i <= self.spots@.len(),
                all_words(gaps@) == gaps_in(self.spots@, i as int),
            decreases self.spots@.len() - i,
        {
            let ghost before = gaps@;
            match find_gap(&self.spots[i].0, &self.spots[i].1) {
                Some(words) => {
                    gaps.push(words);
                    assert(all_words(gaps@) =~= all_words(before).push(words@));
                },
                None => {},
            }
            i = i + 1;
        }
        gaps
    }
}

/// The six-handed name of a seat, counted from the button, at a table of any
/// size: the button, the blinds and the two seats before the button exactly,
/// and everything earlier under the gun.
pub open spec fn position(seat: int, players: int) -> Option<Seat> {
    if seat < 0 || seat >= players || players < 2 {
        None
    } else if seat == 0 {
        Some(Seat::Btn)
    } else if seat == 1 {
        Some(Seat::Sb)
    } else if seat == 2 {
        Some(Seat::Bb)
    } else if seat == players - 1 {
        Some(Seat::Co)
    } else if seat == players - 2 {
        Some(Seat::Hj)
    } else {
        Some(Seat::Utg)
    }
}

/// The six-handed name of a seat at a table of this size.
pub fn seat_position(seat: usize, players: usize) -> (named: Option<Seat>)
    ensures
        named == position(seat as int, players as int),
{
    if seat >= players || players < 2 {
        None
    } else if seat == 0 {
        Some(Seat::Btn)
    } else if seat == 1 {
        Some(Seat::Sb)
    } else if seat == 2 {
        Some(Seat::Bb)
    } else if seat == players - 1 {
        Some(Seat::Co)
    } else if seat == players - 2 {
        Some(Seat::Hj)
    } else {
        Some(Seat::Utg)
    }
}

/// Only under the gun may name more than one seat of a table.
pub proof fn law_positions_name_one_seat_each(one: int, other: int, players: int)
    requires
        position(one, players) is Some,
        position(one, players) == position(other, players),
        one != other,
    ensures
        position(one, players) == Some(Seat::Utg),
{
}

/// Below this many players the charts, made for six, do not apply.
pub const FEWEST_SEATS: usize = 6;

/// What a seat has put in without having chosen to.
pub open spec fn posted(seat: int, big_blind: int) -> int {
    if seat == 1 {
        big_blind / 2
    } else if seat == 2 {
        big_blind
    } else {
        0
    }
}

/// Whether any of the first `count` seats has put in more than a blind.
pub open spec fn limped(committed: Seq<u64>, big_blind: int, count: int) -> bool {
    exists|at: int| 0 <= at < count && #[trigger] committed[at] > posted(at, big_blind)
}

/// The live seat other than `seat`, among the first `count`, that has put in
/// the most, the last of several.
pub open spec fn deepest(
    committed: Seq<u64>,
    live: Seq<bool>,
    seat: int,
    count: int,
) -> Option<int>
    decreases count,
{
    if count <= 0 {
        None
    } else {
        let before = deepest(committed, live, seat, count - 1);
        let at = count - 1;
        if at == seat || !live[at] {
            before
        } else {
            match before {
                Some(best) => if committed[at] >= committed[best] {
                    Some(at)
                } else {
                    before
                },
                None => Some(at),
            }
        }
    }
}

/// The chart that covers a decision, by what a table shows: before the flop,
/// at a table of six or more, unopened, facing a single raise, or coming in
/// cold.
pub open spec fn spot_shown(view: PlayerView) -> Option<Spot> {
    let players = view.players as int;
    let seat = view.seat as int;
    if view.street != Street::Preflop || players < FEWEST_SEATS {
        None
    } else {
        match position(seat, players) {
            None => None,
            Some(named) => if view.raises == 0 {
                if limped(view.committed@, view.big_blind as int, players) {
                    None
                } else {
                    Some(Spot { seat: named, versus: None, cold: false })
                }
            } else if view.raises == 1 {
                match deepest(view.committed@, view.live@, seat, players) {
                    Some(raiser) if view.committed@[raiser] > view.big_blind => {
                        match position(raiser, players) {
                            Some(versus) if versus != named => Some(
                                Spot { seat: named, versus: Some(versus), cold: false },
                            ),
                            _ => None,
                        }
                    },
                    _ => None,
                }
            } else if view.committed@[seat] <= posted(seat, view.big_blind as int) {
                Some(Spot { seat: named, versus: None, cold: true })
            } else {
                None
            },
        }
    }
}

/// What a seat has put in without having chosen to.
fn blind_of(seat: usize, big_blind: u64) -> (chips: u64)
    ensures
        chips == posted(seat as int, big_blind as int),
{
    if seat == 1 {
        big_blind / 2
    } else if seat == 2 {
        big_blind
    } else {
        0
    }
}

/// Whether any seat has put in more than a blind.
fn is_limped(committed: &[u64], big_blind: u64, players: usize) -> (found: bool)
    requires
        players <= committed@.len(),
    ensures
        found == limped(committed@, big_blind as int, players as int),
{
    let mut at: usize = 0;
    while at < players
        invariant
            at <= players <= committed@.len(),
            forall|i: int|
                0 <= i < at ==> #[trigger] committed@[i] <= posted(i, big_blind as int),
        decreases players - at,
    {
        if committed[at] > blind_of(at, big_blind) {
            assert(committed@[at as int] > posted(at as int, big_blind as int));
            return true;
        }
        at = at + 1;
    }
    false
}

/// The live seat other than `seat` that has put in the most.
fn find_raiser(committed: &[u64], live: &[bool], seat: usize, players: usize) -> (raiser: Option<usize>)
    requires
        players <= committed@.len(),
        players <= live@.len(),
    ensures
        match raiser {
            Some(raiser) => raiser < players && deepest(
                committed@,
                live@,
                seat as int,
                players as int,
            ) == Some(raiser as int),
            None => deepest(committed@, live@, seat as int, players as int) is None,
        },
{
    let mut best: Option<usize> = None;
    let mut at: usize = 0;
    while at < players
        invariant
            at <= players,
            players <= committed@.len(),
            players <= live@.len(),
            match best {
                Some(best) => best < at && deepest(committed@, live@, seat as int, at as int)
                    == Some(best as int),
                None => deepest(committed@, live@, seat as int, at as int) is None,
            },
        decreases players - at,
    {
        if at != seat && live[at] {
            match best {
                Some(held) => {
                    if committed[at] >= committed[held] {
                        best = Some(at);
                    }
                },
                None => {
                    best = Some(at);
                },
            }
        }
        at = at + 1;
    }
    best
}

/// Which chart, if any, covers this decision.
pub fn spot_of(view: &PlayerView) -> (spot: Option<Spot>)
    requires
        view.players <= view.committed@.len(),
        view.players <= view.live@.len(),
    ensures
        spot == spot_shown(*view),
{
    if view.street != Street::Preflop || view.players < FEWEST_SEATS {
        return None;
    }
    let seat: Seat = match seat_position(view.seat, view.players) {
        Some(seat) => seat,
        None => {
            return None;
        },
    };
    if view.raises == 0 {
        if is_limped(view.committed, view.big_blind, view.players) {
            None
        } else {
            Some(Spot { seat, versus: None, cold: false })
        }
    } else if view.raises == 1 {
        match find_raiser(view.committed, view.live, view.seat, view.players) {
            Some(raiser) => {
                if view.committed[raiser] <= view.big_blind {
                    return None;
                }
                match seat_position(raiser, view.players) {
                    Some(versus) => {
                        if versus != seat {
                            Some(Spot { seat, versus: Some(versus), cold: false })
                        } else {
                            None
                        }
                    },
                    None => None,
                }
            },
            None => None,
        }
    } else if view.committed[view.seat] <= blind_of(view.seat, view.big_blind) {
        Some(Spot::cold_spot(seat))
    } else {
        None
    }
}

/// Where a character first stands, from `from` on, or the end of the text.
pub open spec fn next_place(text: Seq<char>, wanted: char, from: int) -> int
    decreases text.len() - from,
{
    if from >= text.len() || from < 0 {
        text.len() as int
    } else if text[from] == wanted {
        from
    } else {
        next_place(text, wanted, from + 1)
    }
}

/// Where the white space from `from` on ends, no later than `to`.
pub open spec fn after_space(text: Seq<char>, from: int, to: int) -> int
    decreases to - from,
{
    if from < to && card::is_space(text[from]) {
        after_space(text, from + 1, to)
    } else {
        from
    }
}

/// Where the white space before `to` begins, no earlier than `from`.
pub open spec fn before_space(text: Seq<char>, from: int, to: int) -> int
    decreases to - from,
{
    if from < to && card::is_space(text[to - 1]) {
        before_space(text, from, to - 1)
    } else {
        to
    }
}

/// The part of a text from `from` up to `to` without white space around it.
pub open spec fn trimmed(text: Seq<char>, from: int, to: int) -> Seq<char> {
    let start = after_space(text, from, to);
    text.subrange(start, before_space(text, start, to))
}

/// Whether an entry, from `from` up to `to`, names two cards and a weight: four
/// bytes and a colon.
pub open spec fn is_combination(text: Seq<char>, from: int, to: int) -> bool {
    let colon = next_place(text, ':', from);
    colon < to && encode_utf8(trimmed(text, from, colon)).len() == 4
}

/// Whether one of the first entries of a list, from `from` on, names two cards
/// and a weight, once `seen` entries have been looked at in vain.
pub open spec fn is_export(text: Seq<char>, from: int, seen: int) -> bool
    decreases text.len() + 1 - from,
{
    if seen >= 4 || from > text.len() || from < 0 {
        false
    } else {
        let end = next_place(text, ',', from);
        let count = if trimmed(text, from, end).len() == 0 {
            seen
        } else {
            seen + 1
        };
        if is_combination(text, from, end) {
            true
        } else if end >= text.len() || end < from {
            false
        } else {
            is_export(text, end + 1, count)
        }
    }
}

/// Where a character first stands, from `from` on, or the end of the text.
fn find_place(text: &Vec<char>, wanted: char, from: usize) -> (at: usize)
    requires
        from <= text@.len(),
    ensures
        at == next_place(text@, wanted, from as int),
        from <= at <= text@.len(),
{
    let mut at: usize = from;
    while at < text.len() && text[at] != wanted
        invariant
            from <= at <= text@.len(),
            next_place(text@, wanted, from as int) == next_place(text@, wanted, at as int),
        decreases text@.len() - at,
    {
        at = at + 1;
    }
    at
}

/// Where a part of a text begins and ends without the white space around it.
fn trim(text: &Vec<char>, from: usize, to: usize) -> (part: (usize, usize))
    requires
        from <= to <= text@.len(),
    ensures
        from <= part.0 <= part.1 <= to,
        part.0 == after_space(text@, from as int, to as int),
        part.1 == before_space(text@, part.0 as int, to as int),
        text@.subrange(part.0 as int, part.1 as int) == trimmed(text@, from as int, to as int),
{
    let mut start: usize = from;
    while start < to && card::space(text[start])
        invariant
            from <= start <= to <= text@.len(),
            after_space(text@, from as int, to as int) == after_space(
                text@,
                start as int,
                to as int,
            ),
        decreases to - start,
    {
        start = start + 1;
    }
    let mut end: usize = to;
    while start < end && card::space(text[end - 1])
        invariant
            start <= end <= to <= text@.len(),
            before_space(text@, start as int, to as int) == before_space(
                text@,
                start as int,
                end as int,
            ),
        decreases end - start,
    {
        end = end - 1;
    }
    (start, end)
}

/// Whether a list of hands is an export, one entry for each two cards with its
/// weight, rather than notation written by hand.
///
/// The two are told apart by their first entries: a combination names two
/// exact cards and carries a weight after a colon, and even a weighted term of
/// notation names a class of hands in fewer characters.
pub fn looks_exported(list: &str) -> (exported: bool)
    ensures
        exported == is_export(list@, 0, 0),
{
    let chars: Vec<char> = card::chars_of(list);
    let size: usize = chars.len();
    let mut from: usize = 0;
    let mut seen: usize = 0;
    while seen < 4
        invariant
            chars@ == list@,
            size == chars@.len(),
            from <= size,
            seen <= 4,
            is_export(list@, 0, 0) == is_export(list@, from as int, seen as int),
        decreases size - from + 4 - seen, size - from,
    {
        let end: usize = find_place(&chars, ',', from);
        let colon: usize = find_place(&chars, ':', from);
        if colon < end {
            let (start, stop): (usize, usize) = trim(&chars, from, colon);
            let cards: &str = list.substring_char(start, stop);
            if cards.as_bytes().len() == 4 {
                return true;
            }
        }
        if end >= size {
            return false;
        }
        let (start, stop): (usize, usize) = trim(&chars, from, end);
        if start < stop {
            seen = seen + 1;
        }
        from = end + 1;
    }
    false
}

proof fn lemma_deepest(committed: Seq<u64>, live: Seq<bool>, seat: int, count: int)
    requires
        0 <= count <= committed.len(),
        count <= live.len(),
    ensures
        match deepest(committed, live, seat, count) {
            Some(best) => {
                &&& 0 <= best < count
                &&& best != seat
                &&& live[best]
                &&& forall|i: int|
                    0 <= i < count && i != seat && live[i] ==> #[trigger] committed[i] <= committed[best]
                &&& forall|i: int|
                    best < i < count && i != seat && live[i] ==> #[trigger] committed[i] < committed[best]
            },
            None => forall|i: int| 0 <= i < count && i != seat ==> !#[trigger] live[i],
        },
    decreases count,
{
    if count > 0 {
        lemma_deepest(committed, live, seat, count - 1);
    }
}

/// Facing one raise before the flop at a table of six or more, the chart is the
/// one against the live opponent that has put in the most, the last of several;
/// there is none where that is no more than a big blind, or where both seats
/// have one name.
pub proof fn law_the_raiser_has_put_in_the_most(view: PlayerView, raiser: int)
    requires
        view.street == Street::Preflop,
        6 <= view.players <= view.committed@.len(),
        view.players <= view.live@.len(),
        view.seat < view.players,
        view.raises == 1,
        0 <= raiser < view.players,
        raiser != view.seat,
        view.live@[raiser],
        forall|i: int|
            0 <= i < view.players && i != view.seat && view.live@[i] ==> #[trigger] view.committed@[i]
                <= view.committed@[raiser],
        forall|i: int|
            raiser < i < view.players && i != view.seat && view.live@[i] ==> #[trigger] view.committed@[i]
                < view.committed@[raiser],
    ensures
        ({
            let (hero, versus) = (
                position(view.seat as int, view.players as int)->Some_0,
                position(raiser, view.players as int)->Some_0,
            );
            spot_shown(view) == (if view.committed@[raiser] > view.big_blind && hero != versus {
                Some(Spot { seat: hero, versus: Some(versus), cold: false })
            } else {
                None
            })
        }),
{
    let found = deepest(view.committed@, view.live@, view.seat as int, view.players as int);
    lemma_deepest(view.committed@, view.live@, view.seat as int, view.players as int);
    assert(found is Some);
    let best = found->Some_0;
    assert(view.committed@[raiser] <= view.committed@[best]);
    assert(view.committed@[best] <= view.committed@[raiser]);
    assert(best == raiser);
}

/// A chart against a raise is against a live opponent with more than a big blind
/// in, and no live opponent has more.
pub proof fn law_a_versus_chart_has_a_raiser(view: PlayerView, other: int)
    requires
        view.players <= view.committed@.len(),
        view.players <= view.live@.len(),
        spot_shown(view) is Some,
        spot_shown(view)->Some_0.versus is Some,
        0 <= other < view.players,
        other != view.seat,
        view.live@[other],
    ensures
        view.street == Street::Preflop && view.players >= 6 && view.raises == 1,
        !spot_shown(view)->Some_0.cold,
        exists|raiser: int| {
            &&& 0 <= raiser < view.players
            &&& raiser != view.seat
            &&& view.live@[raiser]
            &&& #[trigger] view.committed@[raiser] > view.big_blind
            &&& view.committed@[other] <= view.committed@[raiser]
            &&& position(raiser, view.players as int) == spot_shown(view)->Some_0.versus
        },
{
    lemma_deepest(view.committed@, view.live@, view.seat as int, view.players as int);
    let raiser = deepest(view.committed@, view.live@, view.seat as int, view.players as int)->Some_0;
    assert(view.committed@[raiser] > view.big_blind);
    assert(view.committed@[other] <= view.committed@[raiser]);
}

/// Charts are for six players and more before the flop. Unopened, there is one
/// exactly where nobody has put in more than a blind that was posted; after two
/// raises or more, exactly where the hero has not.
pub proof fn law_charts_cover_unopened_and_cold_pots(view: PlayerView)
    requires
        view.players <= view.committed@.len(),
        view.players <= view.live@.len(),
        view.seat < view.players,
    ensures
        view.street != Street::Preflop || view.players < 6 ==> spot_shown(view) is None,
        view.street == Street::Preflop && view.players >= 6 && view.raises == 0 ==> {
            let untouched = forall|i: int|
                0 <= i < view.players ==> #[trigger] view.committed@[i] <= (if i == 1 {
                    view.big_blind / 2
                } else if i == 2 {
                    view.big_blind
                } else {
                    0
                });
            &&& untouched <==> spot_shown(view) is Some
            &&& spot_shown(view) matches Some(spot) ==> !spot.cold && spot.versus is None && Some(spot.seat)
                == position(view.seat as int, view.players as int)
        },
        view.street == Street::Preflop && view.players >= 6 && view.raises >= 2 ==> {
            let mine = view.committed@[view.seat as int];
            &&& spot_shown(view) is Some <==> mine == 0 || (view.seat == 1 && mine <= view.big_blind / 2) || (view.seat
                == 2 && mine <= view.big_blind)
            &&& spot_shown(view) matches Some(spot) ==> spot.cold
        },
{
    if view.street == Street::Preflop && view.players >= 6 && view.raises == 0 {
        let players = view.players as int;
        if limped(view.committed@, view.big_blind as int, players) {
            let at = choose|at: int|
                0 <= at < players && #[trigger] view.committed@[at] > posted(at, view.big_blind as int);
            assert(view.committed@[at] > posted(at, view.big_blind as int));
        } else {
            assert forall|i: int| 0 <= i < players implies #[trigger] view.committed@[i] <= posted(
                i,
                view.big_blind as int,
            ) by {}
        }
    }
}

/// What a seat is called at a table of six or more: the button, the blinds after
/// it, the two seats before it, and everything between under the gun.
pub proof fn law_seats_are_named_around_the_button(seat: int, players: int)
    requires
        2 <= players,
        0 <= seat < players,
    ensures
        ({
            let before = players - seat;
            match position(seat, players)->Some_0 {
                Seat::Btn => seat == 0,
                Seat::Sb => seat == 1,
                Seat::Bb => seat == 2,
                Seat::Co => seat > 2 && before == 1,
                Seat::Hj => seat > 2 && before == 2,
                Seat::Utg => seat > 2 && before > 2,
            }
        }),
        position(seat, players) is Some,
{
}

/// A chart found under a name is one that is held under it, the only one there.
pub proof fn law_a_chart_is_held_under_its_own_name<R>(spots: Seq<(String, Chart<R>)>, at: int)
    requires
        0 <= at < spots.len(),
        forall|i: int, j: int|
            0 <= i < j < spots.len() ==> (#[trigger] spots[i]).0@ != (#[trigger] spots[j]).0@,
    ensures
        chart_named(spots, spots[at].0@) == Some(spots[at].1),
    decreases spots.len(),
{
    if at < spots.len() - 1 {
        assert(spots[at].0@ != spots[spots.len() - 1].0@);
        let fewer = spots.drop_last();
        assert forall|i: int, j: int| 0 <= i < j < fewer.len() implies (#[trigger] fewer[i]).0@ != (
        #[trigger] fewer[j]).0@ by {
            assert(spots[i].0@ != spots[j].0@);
        }
        law_a_chart_is_held_under_its_own_name(fewer, at);
        assert(fewer[at] == spots[at]);
    }
}

/// Nothing is found under a name that no chart has.
pub proof fn law_no_chart_is_made_up<R>(spots: Seq<(String, Chart<R>)>, name: Seq<char>)
    requires
        forall|i: int| 0 <= i < spots.len() ==> (#[trigger] spots[i]).0@ != name,
    ensures
        chart_named(spots, name) is None,
    decreases spots.len(),
{
    if spots.len() > 0 {
        assert(spots[spots.len() - 1].0@ != name);
        let fewer = spots.drop_last();
        assert forall|i: int| 0 <= i < fewer.len() implies (#[trigger] fewer[i]).0@ != name by {
            assert(spots[i].0@ != name);
        }
        law_no_chart_is_made_up(fewer, name);
    }
}

proof fn lemma_move_is_played<R>(by_action: Seq<(Move, R)>, weights: Seq<u64>, count: int, at: int)
    requires
        0 <= count <= weights.len(),
        weights.len() == by_action.len(),
        0 <= at < count,
    ensures
        weights[at] > 0 ==> played(by_action, weights, count).contains((by_action[at].0, weights[at])),
    decreases count,
{
    let before = played(by_action, weights, count - 1);
    if at < count - 1 {
        lemma_move_is_played(by_action, weights, count - 1, at);
        if weights[at] > 0 {
            let share = (by_action[at].0, weights[at]);
            let i = choose|i: int| 0 <= i < before.len() && before[i] == share;
            assert(played(by_action, weights, count)[i] == share);
        }
    } else if weights[at] > 0 {
        let all = played(by_action, weights, count);
        assert(all[all.len() - 1] == (by_action[at].0, weights[at]));
    }
}

/// Every action with a weight is in the mix with that weight, and what the
/// weights leave of the whole is folded.
pub proof fn law_weights_are_played_as_given<R>(
    by_action: Seq<(Move, R)>,
    weights: Seq<u64>,
    whole: u64,
    at: int,
)
    requires
        weights.len() == by_action.len(),
        0 <= at < weights.len(),
    ensures
        ({
            let shares = folded(sum_of(weights), whole) + played(by_action, weights, weights.len() as int);
            &&& weights[at] > 0 ==> shares.contains((by_action[at].0, weights[at]))
            &&& sum_of(weights) < whole ==> shares[0].0 == Move::Fold && shares[0].1 + sum_of(weights) == whole
        }),
{
    let (first, rest) = (folded(sum_of(weights), whole), played(by_action, weights, weights.len() as int));
    lemma_move_is_played(by_action, weights, weights.len() as int, at);
    lemma_weights_add_up(weights);
    if weights[at] > 0 {
        let share = (by_action[at].0, weights[at]);
        let i = choose|i: int| 0 <= i < rest.len() && rest[i] == share;
        assert((first + rest)[first.len() + i] == share);
    }
    if sum_of(weights) < whole {
        assert((first + rest)[0] == first[0]);
    }
}

proof fn lemma_weights_add_up(weights: Seq<u64>)
    ensures
        0 <= sum_of(weights),
    decreases weights.len(),
{
    if weights.len() > 0 {
        lemma_weights_add_up(weights.drop_last());
    }
}

/// What a chart file is called: the name of a spot, a point and `raise`, `call`
/// or `jam`, in letters of any case. What stands behind the last point says
/// which move it is, and what stands before it which spot.
pub proof fn law_chart_files_are_named_for_spot_and_move(name: Seq<char>)
    ensures
        ({
            let spot = spot_named(lower_case(name));
            let (raise, call, jam) = (
                file_named(name + seq!['.', 'r', 'a', 'i', 's', 'e']),
                file_named(name + seq!['.', 'c', 'a', 'l', 'l']),
                file_named(name + seq!['.', 'j', 'a', 'm']),
            );
            &&& spot is None ==> raise is None && call is None && jam is None
            &&& spot matches Some(spot) ==> {
                &&& raise == Some((spot, Move::Raise))
                &&& call == Some((spot, Move::Passive))
                &&& jam == Some((spot, Move::Jam))
            }
        }),
        file_named(lower_case(name)) == file_named(name),
        (forall|i: int| 0 <= i < name.len() ==> #[trigger] name[i] != '.') ==> file_named(name) is None,
{
    reveal_strlit("raise");
    reveal_strlit("call");
    reveal_strlit("jam");
    lemma_file_named(name, seq!['.', 'r', 'a', 'i', 's', 'e']);
    lemma_file_named(name, seq!['.', 'c', 'a', 'l', 'l']);
    lemma_file_named(name, seq!['.', 'j', 'a', 'm']);
    assert(seq!['.', 'r', 'a', 'i', 's', 'e'].skip(1) =~= "raise"@);
    assert(seq!['.', 'c', 'a', 'l', 'l'].skip(1) =~= "call"@);
    assert(seq!['.', 'j', 'a', 'm'].skip(1) =~= "jam"@);
    let lower = lower_case(name);
    assert forall|i: int| 0 <= i < name.len() implies #[trigger] lower[i] == text::lowered(name[i]) && text::lowered(
        lower[i],
    ) == lower[i] by {
        lemma_lowered_twice(name[i]);
    }
    assert(lower_case(lower) =~= lower);
    lemma_last_place(lower, '.', lower.len() as int);
    if forall|i: int| 0 <= i < name.len() ==> #[trigger] name[i] != '.' {
        if let Some(at) = last_place(lower, '.', lower.len() as int) {
            assert(lower[at] == text::lowered(name[at]));
            lemma_lowered_twice(name[at]);
        }
    }
}

/// A letter in lower case stays as it is, and no letter becomes a point.
proof fn lemma_lowered_twice(c: char)
    ensures
        text::lowered(text::lowered(c)) == text::lowered(c),
        text::lowered(c) == '.' <==> c == '.',
        'a' <= c <= 'z' ==> text::lowered(c) == c,
{
}

/// What the last place of a character is: it stands there, and not behind it.
proof fn lemma_last_place(text: Seq<char>, wanted: char, count: int)
    requires
        0 <= count <= text.len(),
    ensures
        match last_place(text, wanted, count) {
            Some(at) => 0 <= at < count && text[at] == wanted && forall|k: int|
                at < k < count ==> #[trigger] text[k] != wanted,
            None => forall|k: int| 0 <= k < count ==> #[trigger] text[k] != wanted,
        },
    decreases count,
{
    if count > 0 {
        lemma_last_place(text, wanted, count - 1);
    }
}

/// A stem whose last point stands before a word in lower case.
proof fn lemma_file_named(name: Seq<char>, word: Seq<char>)
    requires
        word.len() >= 1,
        word[0] == '.',
        forall|i: int| 1 <= i < word.len() ==> 'a' <= #[trigger] word[i] <= 'z',
    ensures
        file_named(name + word) == (match (spot_named(lower_case(name)), move_named(word.skip(1))) {
            (Some(spot), Some(action)) => Some((spot, action)),
            _ => None,
        }),
{
    let stem = name + word;
    let lower = lower_case(stem);
    let count = lower.len() as int;
    lemma_last_place(lower, '.', count);
    assert forall|i: int| 0 <= i < count implies #[trigger] lower[i] == (if i < name.len() {
        text::lowered(name[i])
    } else {
        word[i - name.len()]
    }) by {
        lemma_lowered_twice(stem[i]);
        lemma_lowered_twice('.');
    }
    assert(lower[name.len() as int] == '.');
    assert forall|i: int| name.len() < i < count implies #[trigger] lower[i] != '.' by {
        assert('a' <= word[i - name.len()] <= 'z');
    }
    assert(last_place(lower, '.', count) == Some(name.len() as int));
    assert(lower.subrange(0, name.len() as int) =~= lower_case(name));
    assert(lower.subrange(name.len() as int + 1, count) =~= word.skip(1));
}

/// Which moves charts are kept for, and under which names.
pub proof fn law_moves_are_named(name: Seq<char>)
    ensures
        move_named(name) == Some(Move::Raise) <==> name == seq!['r', 'a', 'i', 's', 'e'],
        move_named(name) == Some(Move::Passive) <==> name == seq!['c', 'a', 'l', 'l'],
        move_named(name) == Some(Move::Jam) <==> name == seq!['j', 'a', 'm'],
        move_named(name) != Some(Move::Fold),
{
    reveal_strlit("raise");
    reveal_strlit("call");
    reveal_strlit("jam");
    assert("raise"@ =~= seq!['r', 'a', 'i', 's', 'e']);
    assert("call"@ =~= seq!['c', 'a', 'l', 'l']);
    assert("jam"@ =~= seq!['j', 'a', 'm']);
    let (a, b, c) = (seq!['r', 'a', 'i', 's', 'e'], seq!['c', 'a', 'l', 'l'], seq!['j', 'a', 'm']);
    assert(a.len() == 5 && b.len() == 4 && c.len() == 3);
}

/// What the lower case of a text is: every capital letter of the alphabet a
/// place further on by as much as the small letters are, and all else as it is.
pub proof fn law_only_capitals_are_lowered(text: Seq<char>, i: int)
    requires
        0 <= i < text.len(),
    ensures
        lower_case(text).len() == text.len(),
        lower_case(text)[i] as int == text[i] as int + (if 65 <= text[i] as int <= 90 {
            32int
        } else {
            0
        }),
{
}

/// What is missing from charts is what is missing from any of them.
pub proof fn law_every_gap_is_named<R>(spots: Seq<(String, Chart<R>)>, words: Seq<char>)
    ensures
        gaps_in(spots, spots.len() as int).contains(words) <==> exists|i: int|
            0 <= i < spots.len() && gap((#[trigger] spots[i]).0@, spots[i].1) == Some(words),
{
    lemma_gaps(spots, spots.len() as int, words);
}

/// What is missing from the first charts.
proof fn lemma_gaps<R>(spots: Seq<(String, Chart<R>)>, count: int, words: Seq<char>)
    requires
        0 <= count <= spots.len(),
    ensures
        gaps_in(spots, count).contains(words) <==> exists|i: int|
            0 <= i < count && gap((#[trigger] spots[i]).0@, spots[i].1) == Some(words),
    decreases count,
{
    if count > 0 {
        lemma_gaps(spots, count - 1, words);
        let before = gaps_in(spots, count - 1);
        let after = gaps_in(spots, count);
        if let Some(more) = gap(spots[count - 1].0@, spots[count - 1].1) {
            assert(after[before.len() as int] == more);
            assert forall|k: int| 0 <= k < before.len() implies after[k] == #[trigger] before[k] by {}
            if after.contains(words) {
                let k = choose|k: int| 0 <= k < after.len() && after[k] == words;
                if k < before.len() {
                    assert(before[k] == words);
                }
            }
            if before.contains(words) {
                let k = choose|k: int| 0 <= k < before.len() && before[k] == words;
                assert(after[k] == words);
            }
        }
    }
}

/// What is left of an entry without the white space around it: everything
/// between its first and its last character that is none.
pub proof fn law_entries_are_trimmed(text: Seq<char>, from: int, to: int)
    requires
        0 <= from <= to <= text.len(),
    ensures
        exists|start: int, end: int|
            {
                &&& from <= start <= end <= to
                &&& trimmed(text, from, to) == #[trigger] text.subrange(start, end)
                &&& forall|k: int| from <= k < start || end <= k < to ==> card::is_space(#[trigger] text[k])
                &&& start < end ==> !card::is_space(text[start]) && !card::is_space(text[end - 1])
            },
{
    lemma_after_space(text, from, to);
    let start = after_space(text, from, to);
    lemma_before_space(text, start, to);
    let end = before_space(text, start, to);
    assert(trimmed(text, from, to) == text.subrange(start, end));
}

/// Where white space ends.
proof fn lemma_after_space(text: Seq<char>, from: int, to: int)
    requires
        0 <= from <= to <= text.len(),
    ensures
        ({
            let start = after_space(text, from, to);
            &&& from <= start <= to
            &&& forall|k: int| from <= k < start ==> card::is_space(#[trigger] text[k])
            &&& start < to ==> !card::is_space(text[start])
        }),
    decreases to - from,
{
    if from < to && card::is_space(text[from]) {
        lemma_after_space(text, from + 1, to);
    }
}

/// Where white space begins.
proof fn lemma_before_space(text: Seq<char>, from: int, to: int)
    requires
        0 <= from <= to <= text.len(),
    ensures
        ({
            let end = before_space(text, from, to);
            &&& from <= end <= to
            &&& forall|k: int| end <= k < to ==> card::is_space(#[trigger] text[k])
            &&& from < end ==> !card::is_space(text[end - 1])
        }),
    decreases to - from,
{
    if from < to && card::is_space(text[to - 1]) {
        lemma_before_space(text, from, to - 1);
    }
}

/// Where a mark is looked for it is found at the first place that it stands, and
/// otherwise the text ends.
pub proof fn law_entries_end_at_the_next_mark(text: Seq<char>, wanted: char, from: int)
    requires
        0 <= from <= text.len(),
    ensures
        ({
            let at = next_place(text, wanted, from);
            &&& from <= at <= text.len()
            &&& at < text.len() ==> text[at] == wanted
            &&& forall|k: int| from <= k < at ==> #[trigger] text[k] != wanted
        }),
    decreases text.len() - from,
{
    if from < text.len() && text[from] != wanted {
        law_entries_end_at_the_next_mark(text, wanted, from + 1);
    }
}

/// How an export is told by its first entries. One entry of two cards and a
/// weight is enough, blank entries are passed over, and after four others
/// nothing more is looked at.
pub proof fn law_an_export_shows_early(text: Seq<char>, from: int, seen: int)
    requires
        0 <= from <= text.len(),
    ensures
        ({
            let end = next_place(text, ',', from);
            let entry = trimmed(text, from, end);
            let colon = next_place(text, ':', from);
            let pair = colon < end && encode_utf8(trimmed(text, from, colon)).len() == 4;
            let shows = is_export(text, from, seen);
            &&& seen >= 4 ==> !shows
            &&& seen < 4 && pair ==> shows
            &&& seen < 4 && !pair && end == text.len() ==> !shows
            &&& seen < 4 && !pair && end < text.len() && entry.len() == 0 ==> shows == is_export(text, end + 1, seen)
            &&& seen < 4 && !pair && end < text.len() && entry.len() > 0 ==> shows == is_export(
                text,
                end + 1,
                seen + 1,
            )
        }),
{
    law_entries_end_at_the_next_mark(text, ',', from);
    law_entries_end_at_the_next_mark(text, ':', from);
}

} // verus!
