//! Turning a reading of the screen into a decision to make.
//!
//! A reading numbers the seats from the hero and says what was seen of each.
//! The engine numbers them from the button and wants to know what may be done.
//! What cannot be seen is not invented: a figure that did not read makes the
//! reading untranslatable, and how a street was bet is kept track of from turn
//! to turn by [`History`].
use vstd::prelude::*;

use crate::betting::LegalActions;
use crate::betting::Street;
use crate::card::Card;
use crate::table::Position;
use crate::table::PlayerView;
use crate::text;

verus! {

/// Chips to a big blind. A client shows tenths of a blind, so that every
/// figure it shows is a whole number of chips.
pub const CHIPS_PER_BB: u64 = 100;

/// What was seen of a seat, in chips.
#[derive(Debug, Clone, Copy, PartialEq, Eq)]
pub struct SeatReading {
    pub hero: bool,
    pub in_hand: bool,
    pub stack: Option<u64>,
    pub bet: Option<u64>,
}

/// What was seen of a table, seats numbered clockwise from the hero's side of
/// the screen, amounts in chips.
#[derive(Debug, Clone, PartialEq, Eq)]
pub struct Reading {
    pub seats: Vec<SeatReading>,
    pub hole: Vec<Card>,
    pub board: Vec<Card>,
    pub button: Option<usize>,
    pub pot: Option<u64>,
    pub to_call: Option<u64>,
    /// What has been swept in from earlier streets.
    pub collected: Option<u64>,
    /// How many seats hold cards.
    pub active: usize,
    /// Whether a bet or a raise is on offer.
    pub can_raise: bool,
}

/// Why a reading could not be turned into a decision.
#[derive(Debug, Clone, Copy, PartialEq, Eq)]
pub enum Untranslatable {
    NoHero,
    NoHoleCards,
    NoButton,
    /// A stack, the pot, or the amount to call did not read.
    MissingFigure(&'static str),
    /// A number of board cards that no street has.
    ImpossibleBoard(usize),
}

impl Untranslatable {
    /// The words for the reason.
    pub open spec fn words(self) -> Seq<char> {
        match self {
            Untranslatable::NoHero => "the hero's own seat was not found"@,
            Untranslatable::NoHoleCards => "the hero's two cards were not both read"@,
            Untranslatable::NoButton => "the dealer button was not found"@,
            Untranslatable::MissingFigure(what) => "the "@ + what@ + " did not read"@,
            Untranslatable::ImpossibleBoard(count) => "the board showed "@ + text::digits(
                count as int,
            ) + " cards, which is not a hold'em street"@,
        }
    }

    /// The reason in words.
    pub fn explain(&self) -> (words: String)
        ensures
            words@ == self.words(),
    {
        match self {
            Untranslatable::NoHero => String::from_str("the hero's own seat was not found"),
            Untranslatable::NoHoleCards => {
                String::from_str("the hero's two cards were not both read")
            },
            Untranslatable::NoButton => String::from_str("the dealer button was not found"),
            Untranslatable::MissingFigure(what) => {
                let mut words: String = String::from_str("the ");
                words.append(what);
                words.append(" did not read");
                words
            },
            Untranslatable::ImpossibleBoard(count) => {
                let mut words: String = String::from_str("the board showed ");
                let number: String = text::decimal(*count as u64);
                words.append(number.as_str());
                words.append(" cards, which is not a hold'em street");
                words
            },
        }
    }
}

/// Everything the engine needs to decide, owned, so that a [`PlayerView`] can borrow
/// from it. Seats are numbered from the button.
#[derive(Debug, Clone, PartialEq, Eq)]
pub struct Decision {
    pub hole: [Card; 2],
    pub board: Vec<Card>,
    pub street: Street,
    pub position: Position,
    pub seat: usize,
    pub players: usize,
    pub active: usize,
    pub pot: u64,
    pub to_call: u64,
    pub stack: u64,
    pub stacks: Vec<u64>,
    /// What each seat has put in.
    pub committed: Vec<u64>,
    /// Which seats hold cards.
    pub live: Vec<bool>,
    /// Which seats have acted since the last full raise.
    pub acted: Vec<bool>,
    /// How many raises this street has seen.
    pub raises: u8,
    /// What was in the middle when the street opened, where it shows.
    pub settled: Option<u64>,
    pub legal: LegalActions,
}

impl Decision {
    /// The view an agent is handed. Only this street's chips are in front of
    /// the players, so what a seat has put in this street and what it is seen
    /// to have put in at all are the same reading.
    pub fn view(&self) -> (view: PlayerView<'_>)
        ensures
            view.hole == self.hole,
            view.board@ == self.board@,
            view.street == self.street,
            view.position == self.position,
            view.seat == self.seat,
            view.players == self.players,
            view.active == self.active,
            view.pot == self.pot,
            view.to_call == self.to_call,
            view.stack == self.stack,
            view.stacks@ == self.stacks@,
            view.committed@ == self.committed@,
            view.live@ == self.live@,
            view.street_committed@ == self.committed@,
            view.acted@ == self.acted@,
            view.raises == self.raises,
            view.settled == self.settled,
            view.big_blind == CHIPS_PER_BB,
            *view.legal == self.legal,
    {
        PlayerView {
            hole: self.hole,
            board: self.board.as_slice(),
            street: self.street,
            position: self.position,
            seat: self.seat,
            players: self.players,
            active: self.active,
            pot: self.pot,
            to_call: self.to_call,
            stack: self.stack,
            stacks: self.stacks.as_slice(),
            committed: self.committed.as_slice(),
            live: self.live.as_slice(),
            street_committed: self.committed.as_slice(),
            acted: self.acted.as_slice(),
            raises: self.raises,
            settled: self.settled,
            big_blind: CHIPS_PER_BB,
            legal: &self.legal,
        }
    }
}

/// The first seat that is the hero's.
pub open spec fn hero_of(seats: Seq<SeatReading>, from: int) -> Option<int>
    decreases seats.len() - from,
{
    if from >= seats.len() {
        None
    } else if seats[from].hero {
        Some(from)
    } else {
        hero_of(seats, from + 1)
    }
}

/// A figure that may not have read, as nothing.
pub open spec fn or_nothing(figure: Option<u64>) -> u64 {
    match figure {
        Some(chips) => chips,
        None => 0,
    }
}

/// The largest bet in front of any of the first `count` seats.
pub open spec fn largest_bet(seats: Seq<SeatReading>, count: int) -> int
    decreases count,
{
    if count <= 0 {
        0
    } else {
        let before = largest_bet(seats, count - 1);
        let bet = or_nothing(seats[count - 1].bet);
        if bet > before {
            bet as int
        } else {
            before
        }
    }
}

/// The number of a seat counted from the button.
pub open spec fn from_button(seat: int, button: int, seated: int) -> int {
    (seat + seated - button) % seated
}

/// What a seat counted from the button is called.
pub open spec fn position_of(seat: int, seated: int) -> Position {
    if seat == 0 {
        Position::Button
    } else if seat == 1 && seated == 2 {
        Position::BigBlind
    } else if seat == 1 {
        Position::SmallBlind
    } else if seat == 2 {
        Position::BigBlind
    } else {
        Position::Middle
    }
}

/// The street that a number of board cards belongs to.
pub open spec fn street_of(cards: int) -> Option<Street> {
    if cards == 0 {
        Some(Street::Preflop)
    } else if cards == 3 {
        Some(Street::Flop)
    } else if cards == 4 {
        Some(Street::Turn)
    } else if cards == 5 {
        Some(Street::River)
    } else {
        None
    }
}

/// The smaller of two amounts.
pub open spec fn at_most(amount: int, limit: int) -> int {
    if amount < limit {
        amount
    } else {
        limit
    }
}

impl Reading {
    /// Why the reading is no decision, if anything is wrong with it: the first
    /// of what is missing.
    pub open spec fn trouble(self) -> Option<Untranslatable> {
        match hero_of(self.seats@, 0) {
            None => Some(Untranslatable::NoHero),
            Some(hero) => if self.hole@.len() != 2 {
                Some(Untranslatable::NoHoleCards)
            } else if self.button is None {
                Some(Untranslatable::NoButton)
            } else if self.pot is None {
                Some(Untranslatable::MissingFigure("pot"))
            } else if self.seats@[hero].stack is None {
                Some(Untranslatable::MissingFigure("stack"))
            } else if self.to_call is None {
                Some(Untranslatable::MissingFigure("amount to call"))
            } else if street_of(self.board@.len() as int) is None {
                Some(Untranslatable::ImpossibleBoard(self.board@.len() as usize))
            } else {
                None
            },
        }
    }

    /// Whether the chips of the reading can be counted and its button is a seat.
    pub open spec fn countable(self) -> bool {
        &&& self.button matches Some(button) ==> button <= self.seats@.len()
        &&& 2 * largest_bet(self.seats@, self.seats@.len() as int) <= u64::MAX
        &&& forall|i: int|
            0 <= i < self.seats@.len() ==> or_nothing((#[trigger] self.seats@[i]).bet) + or_nothing(
                self.seats@[i].stack,
            ) <= u64::MAX
    }

    /// What the hero may do: fold, check where nothing is to be called, call
    /// where something is, and raise where that is on offer, from twice the
    /// largest bet or a big blind up to everything.
    pub open spec fn options(self, hero: SeatReading) -> LegalActions {
        let stack = or_nothing(hero.stack) as int;
        let call = at_most(or_nothing(self.to_call) as int, stack);
        let all_in = or_nothing(hero.bet) + stack;
        let doubled = 2 * largest_bet(self.seats@, self.seats@.len() as int);
        let wanted = if doubled > CHIPS_PER_BB {
            doubled
        } else {
            CHIPS_PER_BB as int
        };
        LegalActions {
            can_fold: true,
            can_check: call == 0,
            call_cost: if call > 0 {
                Some(call as u64)
            } else {
                None
            },
            raise_to: if self.can_raise {
                Some((at_most(wanted, all_in) as u64, all_in as u64))
            } else {
                None
            },
        }
    }

    /// Whether a decision is what the reading says.
    pub open spec fn describes(self, decision: Decision) -> bool {
        let seats = self.seats@;
        let hero = hero_of(seats, 0)->Some_0;
        let button = self.button->Some_0 as int;
        let seated = seats.len() as int;
        &&& decision.hole@ == self.hole@
        &&& decision.board@ == self.board@
        &&& Some(decision.street) == street_of(self.board@.len() as int)
        &&& decision.seat == from_button(hero, button, seated)
        &&& decision.position == position_of(decision.seat as int, seated)
        &&& decision.players == seated
        &&& decision.active == self.active
        &&& Some(decision.pot) == self.pot
        &&& Some(decision.stack) == seats[hero].stack
        &&& decision.to_call == at_most(self.to_call->Some_0 as int, decision.stack as int)
        &&& decision.stacks@.len() == seated
        &&& decision.committed@.len() == seated
        &&& decision.live@.len() == seated
        &&& forall|i: int|
            0 <= i < seated ==> {
                let at = from_button(i, button, seated);
                &&& decision.stacks@[at] == or_nothing((#[trigger] seats[i]).stack)
                &&& decision.committed@[at] == or_nothing(seats[i].bet)
                &&& decision.live@[at] == seats[i].in_hand
            }
        &&& decision.acted@ == Seq::new(seated as nat, |i: int| false)
        &&& decision.raises == 0
        &&& decision.settled == self.collected
        &&& decision.legal == self.options(seats[hero])
    }
}

/// The first seat that is the hero's.
fn find_hero(seats: &Vec<SeatReading>) -> (hero: Option<usize>)
    ensures
        match hero {
            Some(hero) => hero_of(seats@, 0) == Some(hero as int) && hero < seats@.len(),
            None => hero_of(seats@, 0) is None,
        },
{
    let mut i: usize = 0;
    while i < seats.len()
        invariant
            i <= seats@.len(),
            hero_of(seats@, 0) == hero_of(seats@, i as int),
        decreases seats@.len() - i,
    {
        if seats[i].hero {
            return Some(i);
        }
        i = i + 1;
    }
    None
}

/// The largest bet in front of anyone.
fn find_largest_bet(seats: &Vec<SeatReading>) -> (largest: u64)
    ensures
        largest == largest_bet(seats@, seats@.len() as int),
{
    let mut largest: u64 = 0;
    let mut i: usize = 0;
    while i < seats.len()
        invariant
            i <= seats@.len(),
            largest == largest_bet(seats@, i as int),
        decreases seats@.len() - i,
    {
        let bet: u64 = chips_or_nothing(seats[i].bet);
        if bet > largest {
            largest = bet;
        }
        i = i + 1;
    }
    largest
}

/// A figure that may not have read, as nothing.
fn chips_or_nothing(figure: Option<u64>) -> (chips: u64)
    ensures
        chips == or_nothing(figure),
{
    match figure {
        Some(chips) => chips,
        None => 0,
    }
}

/// The number of a seat counted from the button.
fn rotate(seat: usize, button: usize, seated: usize) -> (rotated: usize)
    requires
        seat < seated,
        button <= seated,
    ensures
        rotated == from_button(seat as int, button as int, seated as int),
        rotated < seated,
{
    if seat >= button {
        proof {
            let (s, b, n) = (seat as int, button as int, seated as int);
            assert((s + n - b) % n == s - b) by (nonlinear_arith)
                requires
                    0 <= s - b < n,
            ;
        }
        seat - button
    } else {
        proof {
            let (s, b, n) = (seat as int, button as int, seated as int);
            assert((s + n - b) % n == s + n - b) by (nonlinear_arith)
                requires
                    0 <= s + n - b < n,
            ;
        }
        seat + (seated - button)
    }
}

/// Counting from the button gives every seat a number of its own, so nothing
/// that was seen of a seat is lost.
pub proof fn law_every_seat_keeps_its_own_number(one: int, other: int, button: int, seated: int)
    requires
        0 <= one < seated,
        0 <= other < seated,
        0 <= button <= seated,
        one != other,
    ensures
        from_button(one, button, seated) != from_button(other, button, seated),
        0 <= from_button(one, button, seated) < seated,
{
    lemma_rotated(one, button, seated);
    lemma_rotated(other, button, seated);
}

proof fn lemma_rotated(seat: int, button: int, seated: int)
    requires
        0 <= seat < seated,
        0 <= button <= seated,
    ensures
        from_button(seat, button, seated) == (if seat >= button {
            seat - button
        } else {
            seat + seated - button
        }),
{
    assert(seat >= button ==> (seat + seated - button) % seated == seat - button) by (nonlinear_arith)
        requires
            0 <= seat < seated,
            0 <= button <= seated,
    ;
    assert(seat < button ==> (seat + seated - button) % seated == seat + seated - button)
        by (nonlinear_arith)
        requires
            0 <= seat < seated,
            0 <= button <= seated,
    ;
}

/// What was seen of each seat, counted from the button: stacks, bets and who
/// holds cards.
fn rotate_seats(seats: &Vec<SeatReading>, button: usize) -> (found: (Vec<u64>, Vec<u64>, Vec<bool>))
    requires
        button <= seats@.len(),
    ensures
        found.0@.len() == seats@.len(),
        found.1@.len() == seats@.len(),
        found.2@.len() == seats@.len(),
        forall|i: int|
            0 <= i < seats@.len() ==> {
                let at = from_button(i, button as int, seats@.len() as int);
                &&& found.0@[at] == or_nothing((#[trigger] seats@[i]).stack)
                &&& found.1@[at] == or_nothing(seats@[i].bet)
                &&& found.2@[at] == seats@[i].in_hand
            },
{
    let seated: usize = seats.len();
    let mut stacks: Vec<u64> = Vec::new();
    let mut committed: Vec<u64> = Vec::new();
    let mut live: Vec<bool> = Vec::new();
    let mut k: usize = 0;
    while k < seated
        invariant
            k <= seated,
            stacks@.len() == k,
            committed@.len() == k,
            live@.len() == k,
        decreases seated - k,
    {
        stacks.push(0);
        committed.push(0);
        live.push(false);
        k = k + 1;
    }
    let mut i: usize = 0;
    while i < seated
        invariant
            i <= seated,
            seated == seats@.len(),
            button <= seated,
            stacks@.len() == seated,
            committed@.len() == seated,
            live@.len() == seated,
            forall|j: int|
                0 <= j < i ==> {
                    let at = from_button(j, button as int, seated as int);
                    &&& stacks@[at] == or_nothing((#[trigger] seats@[j]).stack)
                    &&& committed@[at] == or_nothing(seats@[j].bet)
                    &&& live@[at] == seats@[j].in_hand
                },
        decreases seated - i,
    {
        let at: usize = rotate(i, button, seated);
        let ghost (a, b, c) = (stacks@, committed@, live@);
        stacks.set(at, chips_or_nothing(seats[i].stack));
        committed.set(at, chips_or_nothing(seats[i].bet));
        live.set(at, seats[i].in_hand);
        assert forall|j: int| 0 <= j < i + 1 implies {
            let at = from_button(j, button as int, seated as int);
            &&& stacks@[at] == or_nothing((#[trigger] seats@[j]).stack)
            &&& committed@[at] == or_nothing(seats@[j].bet)
            &&& live@[at] == seats@[j].in_hand
        } by {
            if j < i {
                law_every_seat_keeps_its_own_number(j, i as int, button as int, seated as int);
            }
        }
        i = i + 1;
    }
    (stacks, committed, live)
}

/// What the hero may do.
fn find_options(table: &Reading, hero: &SeatReading) -> (legal: LegalActions)
    requires
        2 * largest_bet(table.seats@, table.seats@.len() as int) <= u64::MAX,
        or_nothing(hero.bet) + or_nothing(hero.stack) <= u64::MAX,
    ensures
        legal == table.options(*hero),
{
    let stack: u64 = chips_or_nothing(hero.stack);
    let wanted: u64 = chips_or_nothing(table.to_call);
    let call: u64 = if wanted < stack {
        wanted
    } else {
        stack
    };
    let all_in: u64 = chips_or_nothing(hero.bet) + stack;
    let doubled: u64 = 2 * find_largest_bet(&table.seats);
    let least: u64 = if doubled > CHIPS_PER_BB {
        doubled
    } else {
        CHIPS_PER_BB
    };
    let smallest: u64 = if least < all_in {
        least
    } else {
        all_in
    };
    LegalActions {
        can_fold: true,
        can_check: call == 0,
        call_cost: if call > 0 {
            Some(call)
        } else {
            None
        },
        raise_to: if table.can_raise {
            Some((smallest, all_in))
        } else {
            None
        },
    }
}

/// Copies cards.
fn copy_cards(cards: &Vec<Card>) -> (copy: Vec<Card>)
    ensures
        copy@ == cards@,
{
    let mut copy: Vec<Card> = Vec::new();
    let mut i: usize = 0;
    while i < cards.len()
        invariant
            i <= cards@.len(),
            copy@ == cards@.take(i as int),
        decreases cards@.len() - i,
    {
        copy.push(cards[i]);
        assert(cards@.take(i + 1) =~= cards@.take(i as int).push(cards@[i as int]));
        i = i + 1;
    }
    assert(cards@.take(i as int) =~= cards@);
    copy
}

/// As many `false` as there are seats.
fn nobody(seats: usize) -> (flags: Vec<bool>)
    ensures
        flags@ == Seq::new(seats as nat, |i: int| false),
{
    let mut flags: Vec<bool> = Vec::new();
    let mut i: usize = 0;
    while i < seats
        invariant
            i <= seats,
            flags@ == Seq::new(i as nat, |i: int| false),
        decreases seats - i,
    {
        flags.push(false);
        assert(flags@ =~= Seq::new((i + 1) as nat, |i: int| false));
        i = i + 1;
    }
    flags
}

/// Turns a reading of the table into a decision to make.
pub fn translate(table: &Reading) -> (decision: Result<Decision, Untranslatable>)
    requires
        table.countable(),
    ensures
        match decision {
            Ok(decision) => table.trouble() is None && table.describes(decision),
            Err(error) => table.trouble() == Some(error),
        },
{
    let hero_index: usize = match find_hero(&table.seats) {
        Some(index) => index,
        None => {
            return Err(Untranslatable::NoHero);
        },
    };
    if table.hole.len() != 2 {
        return Err(Untranslatable::NoHoleCards);
    }
    let hole: [Card; 2] = [table.hole[0], table.hole[1]];
    assert(hole@ =~= table.hole@);
    let button: usize = match table.button {
        Some(button) => button,
        None => {
            return Err(Untranslatable::NoButton);
        },
    };
    let pot: u64 = match table.pot {
        Some(pot) => pot,
        None => {
            return Err(Untranslatable::MissingFigure("pot"));
        },
    };
    let hero: SeatReading = table.seats[hero_index];
    let stack: u64 = match hero.stack {
        Some(stack) => stack,
        None => {
            return Err(Untranslatable::MissingFigure("stack"));
        },
    };
    let wanted: u64 = match table.to_call {
        Some(wanted) => wanted,
        None => {
            return Err(Untranslatable::MissingFigure("amount to call"));
        },
    };
    let street: Street = match table.board.len() {
        0 => Street::Preflop,
        3 => Street::Flop,
        4 => Street::Turn,
        5 => Street::River,
        other => {
            return Err(Untranslatable::ImpossibleBoard(other));
        },
    };
    let seated: usize = table.seats.len();
    let seat: usize = rotate(hero_index, button, seated);
    let position: Position = if seat == 0 {
        Position::Button
    } else if seat == 1 && seated == 2 {
        Position::BigBlind
    } else if seat == 1 {
        Position::SmallBlind
    } else if seat == 2 {
        Position::BigBlind
    } else {
        Position::Middle
    };
    let (stacks, committed, live): (Vec<u64>, Vec<u64>, Vec<bool>) = rotate_seats(
        &table.seats,
        button,
    );
    let to_call: u64 = if wanted < stack {
        wanted
    } else {
        stack
    };
    assert(or_nothing(table.seats@[hero_index as int].bet) >= 0);
    let legal: LegalActions = find_options(table, &hero);
    Ok(
        Decision {
            hole,
            board: copy_cards(&table.board),
            street,
            position,
            seat,
            players: seated,
            active: table.active,
            pot,
            to_call,
            stack,
            stacks,
            committed,
            live,
            acted: nobody(seated),
            raises: 0,
            settled: table.collected,
            legal,
        },
    )
}

/// Whatever a reading offers can be done: a call costs no more than the stack,
/// checking and calling exclude each other, and the smallest raise is no more
/// than the largest.
pub proof fn law_options_are_consistent(table: Reading, hero: SeatReading)
    requires
        2 * largest_bet(table.seats@, table.seats@.len() as int) <= u64::MAX,
        or_nothing(hero.bet) + or_nothing(hero.stack) <= u64::MAX,
    ensures
        ({
            let legal = table.options(hero);
            &&& legal.can_check == (legal.call_cost is None)
            &&& legal.call_cost matches Some(cost) ==> 0 < cost <= or_nothing(hero.stack)
            &&& legal.raise_to matches Some((least, most)) ==> least <= most && most == or_nothing(
                hero.bet,
            ) + or_nothing(hero.stack)
            &&& legal.raise_to is Some <==> table.can_raise
        }),
{
    lemma_largest_bet(table.seats@, table.seats@.len() as int);
}

proof fn lemma_largest_bet(seats: Seq<SeatReading>, count: int)
    ensures
        0 <= largest_bet(seats, count),
    decreases count,
{
    if count > 0 {
        lemma_largest_bet(seats, count - 1);
    }
}

/// The largest of the first `count` amounts.
pub open spec fn highest(amounts: Seq<u64>, count: int) -> u64
    decreases count,
{
    if count <= 0 {
        0
    } else {
        let before = highest(amounts, count - 1);
        if amounts[count - 1] > before {
            amounts[count - 1]
        } else {
            before
        }
    }
}

/// The first live seat from `from` on that is not `seat`.
pub open spec fn opponent_of(live: Seq<bool>, seat: int, from: int) -> Option<int>
    decreases live.len() - from,
{
    if from >= live.len() {
        None
    } else if live[from] && from != seat {
        Some(from)
    } else {
        opponent_of(live, seat, from + 1)
    }
}

/// The live seat that acts last after the flop: the button, or else the last
/// one before it.
pub open spec fn last_to_act(live: Seq<bool>, count: int) -> Option<int>
    decreases count,
{
    if live[0] {
        Some(0)
    } else if count <= 1 {
        None
    } else if live[count - 1] {
        Some(count - 1)
    } else {
        last_to_act(live, count - 1)
    }
}

/// What a single look cannot show: how a street has been bet.
///
/// Turn order needs no memory. After the flop the out-of-position player acts
/// first, so in position the opponent has acted, and out of position it has
/// exactly if there is a bet. How many raises there were needs a little: with
/// two players the opponent acts once between the hero's turns, so a larger
/// bet than at the hero's last turn is one raise, and the hero's own raises
/// are told to it.
#[derive(Debug, Clone, Copy, PartialEq, Eq)]
pub struct History {
    /// Which street the counts belong to, by how many board cards showed.
    pub board: usize,
    /// The hero's cards, to notice a new hand on the same street.
    pub hole: Option<[Card; 2]>,
    pub raises: u8,
    /// The largest wager at the hero's last turn of this street.
    pub bet: u64,
}

impl Default for History {
    fn default() -> (history: History)
        ensures
            history == (History { board: 0, hole: None, raises: 0, bet: 0 }),
    {
        History { board: 0, hole: None, raises: 0, bet: 0 }
    }
}

/// One more, unless that cannot be counted.
pub open spec fn one_more(count: u8) -> u8 {
    if count < 255 {
        (count + 1) as u8
    } else {
        255
    }
}

impl History {
    /// Whether the decision is the first that is seen of its street and hand.
    pub open spec fn is_new(self, decision: Decision) -> bool {
        ||| decision.board@.len() != self.board
        ||| self.hole is None
        ||| self.hole->Some_0@ != decision.hole@
    }

    /// What is remembered of the street that the decision belongs to.
    pub open spec fn turned_to(self, decision: Decision) -> History {
        if self.is_new(decision) {
            History {
                board: decision.board@.len() as usize,
                hole: Some(decision.hole),
                raises: 0,
                bet: 0,
            }
        } else {
            self
        }
    }

    /// What is remembered once the decision has been looked at. The blinds are
    /// no raises, so before the flop nothing is counted.
    pub open spec fn after(self, decision: Decision) -> History {
        let turned = self.turned_to(decision);
        let bet = highest(decision.committed@, decision.committed@.len() as int);
        if decision.street == Street::Preflop {
            turned
        } else {
            History {
                raises: if bet > turned.bet {
                    one_more(turned.raises)
                } else {
                    turned.raises
                },
                bet,
                ..turned
            }
        }
    }

    /// Who has acted on the street of the decision: with two players left the
    /// opponent, if the hero is in position or there is a bet.
    pub open spec fn acted(decision: Decision) -> Seq<bool> {
        let live = decision.live@;
        let bet = highest(decision.committed@, decision.committed@.len() as int);
        let quiet = Seq::new(live.len(), |i: int| false);
        match opponent_of(live, decision.seat as int, 0) {
            Some(opponent) if decision.active == 2 => quiet.update(
                opponent,
                last_to_act(live, live.len() as int) == Some(decision.seat as int) || bet > 0,
            ),
            _ => quiet,
        }
    }

    /// Nothing remembered.
    pub fn new() -> (history: History)
        ensures
            history == (History { board: 0, hole: None, raises: 0, bet: 0 }),
    {
        History { board: 0, hole: None, raises: 0, bet: 0 }
    }

    /// Fills in what a look could not say, and remembers this turn. To be
    /// called once for a decision, before it is made.
    pub fn observe(&mut self, decision: &mut Decision)
        ensures
            final(self).board == old(self).after(*old(decision)).board,
            final(self).raises == old(self).after(*old(decision)).raises,
            final(self).bet == old(self).after(*old(decision)).bet,
            final(self).hole matches Some(hole) && hole@ == old(decision).hole@,
            final(decision).raises == (if old(decision).street == Street::Preflop {
                old(decision).raises
            } else {
                old(self).after(*old(decision)).raises
            }),
            final(decision).acted@ == (if old(decision).street == Street::Preflop {
                old(decision).acted@
            } else {
                History::acted(*old(decision))
            }),
            *final(decision) == (Decision {
                raises: final(decision).raises,
                acted: final(decision).acted,
                ..*old(decision)
            }),
    {
        let bet: u64 = find_highest(&decision.committed);
        let new_hole: bool = match self.hole {
            Some(held) => {
                let same: bool = held[0] == decision.hole[0] && held[1] == decision.hole[1];
                assert(same <==> held@ =~= decision.hole@);
                !same
            },
            None => true,
        };
        if decision.board.len() != self.board || new_hole {
            self.board = decision.board.len();
            self.hole = Some(decision.hole);
            self.raises = 0;
            self.bet = 0;
        }
        if decision.street == Street::Preflop {
            return ;
        }
        if bet > self.bet {
            self.raises = if self.raises < 255 {
                self.raises + 1
            } else {
                255
            };
        }
        self.bet = bet;
        decision.raises = self.raises;
        let mut acted: Vec<bool> = nobody(decision.live.len());
        if decision.active == 2 {
            if let Some(opponent) = find_opponent(&decision.live, decision.seat) {
                let in_position: bool = hero_is_in_position(decision);
                acted.set(opponent, in_position || bet > 0);
            }
        }
        decision.acted = acted;
    }

    /// Tells the tracker that the hero has raised to a total this street.
    pub fn hero_raised_to(&mut self, total: u64)
        ensures
            *final(self) == (History {
                raises: one_more(old(self).raises),
                bet: if total > old(self).bet {
                    total
                } else {
                    old(self).bet
                },
                ..*old(self)
            }),
    {
        if self.raises < 255 {
            self.raises = self.raises + 1;
        }
        if total > self.bet {
            self.bet = total;
        }
    }
}

/// The largest of amounts.
fn find_highest(amounts: &Vec<u64>) -> (largest: u64)
    ensures
        largest == highest(amounts@, amounts@.len() as int),
{
    let mut largest: u64 = 0;
    let mut i: usize = 0;
    while i < amounts.len()
        invariant
            i <= amounts@.len(),
            largest == highest(amounts@, i as int),
        decreases amounts@.len() - i,
    {
        if amounts[i] > largest {
            largest = amounts[i];
        }
        i = i + 1;
    }
    largest
}

/// The first live seat that is not `seat`.
fn find_opponent(live: &Vec<bool>, seat: usize) -> (opponent: Option<usize>)
    ensures
        match opponent {
            Some(opponent) => opponent < live@.len() && opponent_of(live@, seat as int, 0) == Some(
                opponent as int,
            ),
            None => opponent_of(live@, seat as int, 0) is None,
        },
{
    let mut i: usize = 0;
    while i < live.len()
        invariant
            i <= live@.len(),
            opponent_of(live@, seat as int, 0) == opponent_of(live@, seat as int, i as int),
        decreases live@.len() - i,
    {
        if live[i] && i != seat {
            return Some(i);
        }
        i = i + 1;
    }
    None
}

/// Whether the hero acts last on this street.
pub fn hero_is_in_position(decision: &Decision) -> (last: bool)
    requires
        decision.live@.len() > 0,
    ensures
        last == (last_to_act(decision.live@, decision.live@.len() as int) == Some(
            decision.seat as int,
        )),
{
    if decision.live[0] {
        return decision.seat == 0;
    }
    let mut left: usize = decision.live.len();
    while left > 1
        invariant
            1 <= left <= decision.live@.len(),
            !decision.live@[0],
            last_to_act(decision.live@, decision.live@.len() as int) == last_to_act(
                decision.live@,
                left as int,
            ),
        decreases left,
    {
        if decision.live[left - 1] {
            return decision.seat == left - 1;
        }
        left = left - 1;
    }
    false
}

/// Looking twice at the same decision counts nothing twice.
pub proof fn law_a_second_look_counts_nothing(history: History, decision: Decision)
    requires
        decision.board@.len() <= usize::MAX,
    ensures
        history.after(decision).after(decision) == history.after(decision),
{
}

/// A new street or a new hand starts the count again, whatever came before: no
/// two histories differ after it.
pub proof fn law_a_new_street_forgets_the_last(one: History, other: History, decision: Decision)
    requires
        one.is_new(decision),
        other.is_new(decision),
    ensures
        one.after(decision) == other.after(decision),
{
}

/// Betting is counted raise by raise: after the hero has raised, a larger bet
/// at the hero's next turn of the same street is exactly one raise more, and
/// the same bet none.
pub proof fn law_a_raising_war_is_counted_exactly(history: History, decision: Decision, total: u64)
    requires
        !history.is_new(decision),
        decision.street != Street::Preflop,
        history.raises < 254,
        history.bet <= total,
    ensures
        ({
            let raised = History { raises: one_more(history.raises), bet: total, ..history };
            let bet = highest(decision.committed@, decision.committed@.len() as int);
            &&& bet > total ==> raised.after(decision).raises == history.raises + 2
            &&& bet <= total ==> raised.after(decision).raises == history.raises + 1
        }),
{
}

proof fn lemma_counted_from_button(seat: int, button: int, seated: int)
    requires
        0 <= seat < seated,
        0 <= button <= seated,
    ensures
        from_button(seat, button, seated) == (if button <= seat {
            seat - button
        } else {
            seat - button + seated
        }),
{
    if button <= seat {
        vstd::arithmetic::div_mod::lemma_mod_add_multiples_vanish(seat - button, seated);
        vstd::arithmetic::div_mod::lemma_small_mod((seat - button) as nat, seated as nat);
    } else {
        vstd::arithmetic::div_mod::lemma_small_mod((seat + seated - button) as nat, seated as nat);
    }
}

/// What every decision that a reading gives has: as many board cards as
/// its street deals, and the cards and the pot that were read.
pub proof fn law_a_decision_has_the_board_of_its_street(table: Reading, decision: Decision)
    requires
        table.trouble() is None,
        table.describes(decision),
    ensures
        decision.board@ == table.board@,
        decision.board@.len() == (match decision.street {
            Street::Preflop => 0nat,
            Street::Flop => 3,
            Street::Turn => 4,
            Street::River => 5,
        }),
        decision.hole@ == table.hole@,
        Some(decision.pot) == table.pot,
        decision.settled == table.collected,
        decision.players == table.seats@.len(),
        decision.active == table.active,
        decision.raises == 0,
{
}

/// Where the hero sits in a decision: as many seats past the button as the
/// table shows, first of the seats that are marked as the hero's, with the
/// stack that was read there and no more to call than that.
pub proof fn law_the_hero_sits_where_the_table_shows(table: Reading, decision: Decision, hero: int)
    requires
        table.countable(),
        table.trouble() is None,
        table.describes(decision),
        0 <= hero < table.seats@.len(),
        table.seats@[hero].hero,
        forall|i: int| 0 <= i < hero ==> !(#[trigger] table.seats@[i]).hero,
    ensures
        ({
            let past = hero - table.button->Some_0;
            &&& 0 <= decision.seat < table.seats@.len()
            &&& decision.seat == past || decision.seat == past + table.seats@.len()
        }),
        Some(decision.stack) == table.seats@[hero].stack,
        decision.to_call <= decision.stack,
        decision.to_call <= table.to_call->Some_0,
        decision.to_call == decision.stack || Some(decision.to_call) == table.to_call,
        decision.live@[decision.seat as int] == table.seats@[hero].in_hand,
        decision.stacks@[decision.seat as int] == decision.stack,
{
    lemma_hero_is_first(table.seats@, 0, hero);
    lemma_counted_from_button(hero, table.button->Some_0 as int, table.seats@.len() as int);
    let seat = table.seats@[hero];
}

proof fn lemma_hero_is_first(seats: Seq<SeatReading>, from: int, hero: int)
    requires
        0 <= from <= hero < seats.len(),
        seats[hero].hero,
        forall|i: int| 0 <= i < hero ==> !(#[trigger] seats[i]).hero,
    ensures
        hero_of(seats, from) == Some(hero),
    decreases hero - from,
{
    if from < hero {
        lemma_hero_is_first(seats, from + 1, hero);
    }
}

proof fn lemma_hero_is_found(seats: Seq<SeatReading>, from: int)
    requires
        0 <= from,
    ensures
        match hero_of(seats, from) {
            Some(hero) => from <= hero < seats.len() && seats[hero].hero && forall|i: int|
                from <= i < hero ==> !(#[trigger] seats[i]).hero,
            None => forall|i: int| from <= i < seats.len() ==> !(#[trigger] seats[i]).hero,
        },
    decreases seats.len() - from,
{
    if from < seats.len() && !seats[from].hero {
        lemma_hero_is_found(seats, from + 1);
    }
}

/// Every seat's stack, bet and cards are found as many seats past the button as
/// it sits: the button's own at nought, and the next seat's one further.
pub proof fn law_seats_are_counted_from_the_button(table: Reading, decision: Decision, seat: int)
    requires
        table.countable(),
        table.trouble() is None,
        table.describes(decision),
        0 <= seat < table.seats@.len(),
    ensures
        ({
            let button = table.button->Some_0 as int;
            let at = if seat >= button {
                seat - button
            } else {
                seat - button + table.seats@.len()
            };
            let shown = table.seats@[seat];
            &&& 0 <= at < decision.stacks@.len()
            &&& decision.stacks@.len() == table.seats@.len()
            &&& decision.committed@.len() == table.seats@.len()
            &&& decision.live@.len() == table.seats@.len()
            &&& decision.acted@.len() == table.seats@.len() && !decision.acted@[at]
            &&& decision.stacks@[at] == (match shown.stack {
                Some(chips) => chips,
                None => 0,
            })
            &&& decision.committed@[at] == (match shown.bet {
                Some(chips) => chips,
                None => 0,
            })
            &&& decision.live@[at] == shown.in_hand
        }),
{
    lemma_counted_from_button(seat, table.button->Some_0 as int, table.seats@.len() as int);
    let shown = table.seats@[seat];
}

/// Of two players the one who is not on the button has the big blind; of more,
/// the two seats after the button have the blinds, and nobody else has one.
pub proof fn law_blinds_sit_behind_the_button(table: Reading, decision: Decision)
    requires
        table.countable(),
        table.trouble() is None,
        table.describes(decision),
    ensures
        decision.position == Position::Button <==> decision.seat == 0,
        decision.players == 2 && decision.seat == 1 ==> decision.position == Position::BigBlind,
        decision.players > 2 && decision.seat == 1 ==> decision.position == Position::SmallBlind,
        decision.seat == 2 ==> decision.position == Position::BigBlind,
        decision.seat > 2 ==> decision.position == Position::Middle,
{
    lemma_hero_is_found(table.seats@, 0);
    let hero = hero_of(table.seats@, 0)->Some_0;
    lemma_counted_from_button(hero, table.button->Some_0 as int, table.seats@.len() as int);
}

/// A reading is a decision exactly where a hero, two cards, the button, the pot,
/// the hero's stack and what is to be called were read, with a board of none,
/// three, four or five cards.
pub proof fn law_whole_readings_are_translated(table: Reading)
    ensures
        table.trouble() is None <==> exists|hero: int| {
            &&& 0 <= hero < table.seats@.len()
            &&& (#[trigger] table.seats@[hero]).hero
            &&& forall|i: int| 0 <= i < hero ==> !(#[trigger] table.seats@[i]).hero
            &&& table.hole@.len() == 2
            &&& table.button is Some
            &&& table.pot is Some
            &&& table.seats@[hero].stack is Some
            &&& table.to_call is Some
            &&& (table.board@.len() == 0 || 3 <= table.board@.len() <= 5)
        },
        table.trouble() == Some(Untranslatable::NoHero) <==> forall|i: int|
            0 <= i < table.seats@.len() ==> !(#[trigger] table.seats@[i]).hero,
{
    lemma_hero_is_found(table.seats@, 0);
    if exists|hero: int|
        0 <= hero < table.seats@.len() && (#[trigger] table.seats@[hero]).hero && forall|i: int|
            0 <= i < hero ==> !(#[trigger] table.seats@[i]).hero {
        let hero = choose|hero: int|
            0 <= hero < table.seats@.len() && (#[trigger] table.seats@[hero]).hero && forall|i: int|
                0 <= i < hero ==> !(#[trigger] table.seats@[i]).hero;
        lemma_hero_is_first(table.seats@, 0, hero);
    }
}

proof fn lemma_no_bet_is_larger(seats: Seq<SeatReading>, count: int, seat: int)
    requires
        0 <= seat < count <= seats.len(),
    ensures
        or_nothing(seats[seat].bet) <= largest_bet(seats, count),
        largest_bet(seats, count) == 0 || exists|i: int|
            0 <= i < count && or_nothing((#[trigger] seats[i]).bet) == largest_bet(seats, count),
    decreases count,
{
    if count > 1 {
        lemma_no_bet_is_larger(
            seats,
            count - 1,
            if seat < count - 1 {
                seat
            } else {
                0
            },
        );
    }
    let last = seats[count - 1];
    if or_nothing(last.bet) > largest_bet(seats, count - 1) {
        assert(or_nothing(seats[count - 1].bet) == largest_bet(seats, count));
    }
}

/// The smallest raise on offer is a big blind or more and twice every bet or
/// more, no larger than that asks for, and everything the hero has where that
/// is less.
pub proof fn law_raises_double_the_largest_bet(table: Reading, hero: SeatReading, seat: int)
    requires
        table.countable(),
        table.can_raise,
        0 <= seat < table.seats@.len(),
        or_nothing(hero.bet) + or_nothing(hero.stack) <= u64::MAX,
    ensures
        table.options(hero).raise_to matches Some((least, most)) && {
            &&& least <= most
            &&& most == or_nothing(hero.bet) + or_nothing(hero.stack)
            &&& least == most || {
                &&& least >= 100
                &&& least >= 2 * or_nothing(table.seats@[seat].bet)
                &&& least == 100 || exists|i: int|
                    0 <= i < table.seats@.len() && 2 * or_nothing((#[trigger] table.seats@[i]).bet) == least
            }
            &&& least == 100 || least <= 100 || exists|i: int|
                0 <= i < table.seats@.len() && 2 * or_nothing((#[trigger] table.seats@[i]).bet) >= least
        },
        table.options(hero).can_fold,
        table.options(hero).can_check <==> or_nothing(table.to_call) == 0 || or_nothing(hero.stack) == 0,
{
    lemma_no_bet_is_larger(table.seats@, table.seats@.len() as int, seat);
    let largest = largest_bet(table.seats@, table.seats@.len() as int);
    if largest > 0 {
        let i = choose|i: int|
            0 <= i < table.seats@.len() && or_nothing((#[trigger] table.seats@[i]).bet) == largest;
        assert(2 * or_nothing(table.seats@[i].bet) == 2 * largest);
    }
}

proof fn lemma_no_amount_is_higher(amounts: Seq<u64>, count: int, seat: int)
    requires
        0 <= seat < count <= amounts.len(),
    ensures
        amounts[seat] <= highest(amounts, count),
        highest(amounts, count) == 0 || exists|i: int| 0 <= i < count && #[trigger] amounts[i] == highest(
            amounts,
            count,
        ),
    decreases count,
{
    if count > 1 {
        lemma_no_amount_is_higher(
            amounts,
            count - 1,
            if seat < count - 1 {
                seat
            } else {
                0
            },
        );
    }
    if amounts[count - 1] > highest(amounts, count - 1) {
        assert(amounts[count - 1] == highest(amounts, count));
    }
}

/// After the flop a raise is counted exactly where somebody has put in more than
/// the most that was there at the hero's last turn of the street, which is
/// nothing on a new one, and what is remembered is the most that anybody has in.
pub proof fn law_a_larger_bet_is_one_raise(history: History, decision: Decision, seat: int)
    requires
        decision.street != Street::Preflop,
        0 <= seat < decision.committed@.len(),
        decision.board@.len() <= usize::MAX,
    ensures
        ({
            let after = history.after(decision);
            let same = decision.board@.len() == history.board && (history.hole matches Some(hole) && hole@
                == decision.hole@);
            let (raises, bet): (int, int) = if same {
                (history.raises as int, history.bet as int)
            } else {
                (0, 0)
            };
            let higher = exists|i: int| 0 <= i < decision.committed@.len() && #[trigger] decision.committed@[i] > bet;
            &&& after.board == decision.board@.len()
            &&& after.bet >= decision.committed@[seat]
            &&& after.bet == 0 || exists|i: int|
                0 <= i < decision.committed@.len() && #[trigger] decision.committed@[i] == after.bet
            &&& after.raises == (if higher && raises < 255 {
                raises + 1
            } else {
                raises
            })
        }),
{
    let bet = highest(decision.committed@, decision.committed@.len() as int);
    lemma_no_amount_is_higher(decision.committed@, decision.committed@.len() as int, seat);
    let held = history.turned_to(decision).bet;
    if bet > held {
        let i = choose|i: int| 0 <= i < decision.committed@.len() && #[trigger] decision.committed@[i] == bet;
        assert(decision.committed@[i] > held);
    } else {
        assert forall|i: int| 0 <= i < decision.committed@.len() implies #[trigger] decision.committed@[i] <= held by {
            lemma_no_amount_is_higher(decision.committed@, decision.committed@.len() as int, i);
        }
    }
}

/// Before the flop no raise is counted, however large the bets.
pub proof fn law_blinds_are_no_raises(history: History, decision: Decision)
    requires
        decision.street == Street::Preflop,
        history.raises == 0 || decision.board@.len() != history.board,
    ensures
        history.after(decision).raises == 0,
{
}

/// Who acts last after the flop.
pub proof fn lemma_last_to_act(live: Seq<bool>, count: int)
    requires
        0 < count <= live.len(),
    ensures
        match last_to_act(live, count) {
            Some(last) => 0 <= last < count && live[last] && (last == 0 || (!live[0] && forall|i: int|
                last < i < count ==> !#[trigger] live[i])),
            None => forall|i: int| 0 <= i < count ==> !#[trigger] live[i],
        },
    decreases count,
{
    if !live[0] && count > 1 && !live[count - 1] {
        lemma_last_to_act(live, count - 1);
    }
}

/// The hero has position exactly where the hero holds cards and is on the
/// button, or the button folded and so did everybody between the hero and it.
pub proof fn law_position_is_the_last_turn(live: Seq<bool>, seat: int)
    requires
        0 <= seat < live.len(),
    ensures
        last_to_act(live, live.len() as int) == Some(seat) <==> live[seat] && (seat == 0 || (!live[0] && forall|i: int|
            seat < i < live.len() ==> !#[trigger] live[i])),
{
    lemma_last_to_act(live, live.len() as int);
}

proof fn lemma_opponent(live: Seq<bool>, seat: int, from: int)
    requires
        0 <= from,
    ensures
        match opponent_of(live, seat, from) {
            Some(other) => from <= other < live.len() && live[other] && other != seat && forall|i: int|
                from <= i < other ==> i == seat || !#[trigger] live[i],
            None => forall|i: int| from <= i < live.len() ==> i == seat || !#[trigger] live[i],
        },
    decreases live.len() - from,
{
    if from < live.len() && !(live[from] && from != seat) {
        lemma_opponent(live, seat, from + 1);
    }
}

/// With two players left, the opponent has acted exactly where the hero acts
/// last or somebody has bet, and nobody else is said to have acted; with more
/// players nobody is.
pub proof fn law_only_the_opponent_is_known_to_have_acted(decision: Decision, opponent: int, other: int)
    requires
        decision.active == 2,
        0 <= decision.seat < decision.live@.len(),
        0 <= opponent < decision.live@.len(),
        opponent != decision.seat,
        decision.live@[opponent],
        forall|i: int|
            0 <= i < decision.live@.len() && i != opponent && i != decision.seat ==> !#[trigger] decision.live@[i],
        decision.live@[decision.seat as int],
        0 <= other < decision.live@.len(),
        other != opponent,
        decision.committed@.len() > 0,
    ensures
        ({
            let acted = History::acted(decision);
            let bet = exists|i: int| 0 <= i < decision.committed@.len() && #[trigger] decision.committed@[i] > 0;
            let behind = decision.seat == 0 || (opponent != 0 && opponent < decision.seat);
            &&& acted.len() == decision.live@.len()
            &&& acted[opponent] == (behind || bet)
            &&& !acted[other]
        }),
{
    let live = decision.live@;
    lemma_opponent(live, decision.seat as int, 0);
    law_position_is_the_last_turn(live, decision.seat as int);
    let bet = highest(decision.committed@, decision.committed@.len() as int);
    lemma_no_amount_is_higher(decision.committed@, decision.committed@.len() as int, 0);
    if bet == 0 {
        assert forall|i: int| 0 <= i < decision.committed@.len() implies #[trigger] decision.committed@[i] <= 0 by {
            lemma_no_amount_is_higher(decision.committed@, decision.committed@.len() as int, i);
        }
    } else {
        let i = choose|i: int| 0 <= i < decision.committed@.len() && #[trigger] decision.committed@[i] == bet;
        assert(decision.committed@[i] > 0);
    }
    if decision.seat != 0 && opponent != 0 && opponent < decision.seat {
        assert(!live[0]);
        assert forall|i: int| decision.seat < i < live.len() implies !#[trigger] live[i] by {}
    } else if decision.seat != 0 {
        if opponent > decision.seat {
            assert(live[opponent]);
        } else {
            assert(live[0]);
        }
    }
}

} // verus!
