//! Betting round mechanics: legal actions, raise sizing, and round completion.
//!
//! An all-in raise for *less* than a full raise does not reopen the betting.
//! If A bets 100 and B moves all in for 150 when a full raise would be 200,
//! then A must call or fold. But a player who had not yet acted keeps full
//! rights, including raising. Both follow from one piece of state: whether a
//! seat has acted since the last *full* raise. A player may raise exactly when
//! it has not, and must act when it faces unmatched chips or has not. The big
//! blind's preflop option is the same rule: the blind was posted, not acted.
//!
//! Raises are expressed as [`Action::RaiseTo`], a total street commitment
//! rather than an increment.

use vstd::prelude::*;

use crate::text;

verus! {

/// A betting street.
#[derive(Debug, Clone, Copy, PartialEq, Eq, PartialOrd, Ord, Hash, Structural)]
pub enum Street {
    Preflop,
    Flop,
    Turn,
    River,
}

impl Street {
    /// The street after this one, or `None` after the river.
    pub fn next(self) -> (street: Option<Street>)
        ensures
            street == (match self {
                Street::Preflop => Some(Street::Flop),
                Street::Flop => Some(Street::Turn),
                Street::Turn => Some(Street::River),
                Street::River => None,
            }),
    {
        match self {
            Street::Preflop => Some(Street::Flop),
            Street::Flop => Some(Street::Turn),
            Street::Turn => Some(Street::River),
            Street::River => None,
        }
    }

    /// How many board cards are face up during this street.
    pub open spec fn cards(self) -> int {
        match self {
            Street::Preflop => 0,
            Street::Flop => 3,
            Street::Turn => 4,
            Street::River => 5,
        }
    }

    /// How many board cards are face up during this street.
    pub fn board_cards(self) -> (cards: usize)
        ensures
            cards == self.cards(),
    {
        match self {
            Street::Preflop => 0,
            Street::Flop => 3,
            Street::Turn => 4,
            Street::River => 5,
        }
    }

    pub open spec fn words(self) -> Seq<char> {
        match self {
            Street::Preflop => "preflop"@,
            Street::Flop => "flop"@,
            Street::Turn => "turn"@,
            Street::River => "river"@,
        }
    }

    /// The name of the street.
    pub fn to_string(&self) -> (text: String)
        ensures
            text@ == self.words(),
    {
        String::from_str(
            match self {
                Street::Preflop => "preflop",
                Street::Flop => "flop",
                Street::Turn => "turn",
                Street::River => "river",
            },
        )
    }
}

/// An action a player can take.
#[derive(Debug, Clone, Copy, PartialEq, Eq, Hash, Structural)]
pub enum Action {
    Fold,
    Check,
    Call,
    /// Raise this street's total commitment to the given amount.
    ///
    /// A first bet is a raise to the bet size, since the current bet is zero.
    RaiseTo(u64),
}

/// One player's state within a betting round.
#[derive(Debug, Clone, Copy, PartialEq, Eq, Structural)]
pub struct Seat {
    /// Chips still behind.
    pub stack: u64,
    /// Chips committed on this street.
    pub committed: u64,
    /// Chips committed across the whole hand, including earlier streets.
    pub total_committed: u64,
    pub folded: bool,
    /// Acted since the last full raise. Drives both "must act" and "may raise".
    pub has_acted: bool,
}

/// A seat as a mathematical value.
pub struct SeatModel {
    pub stack: int,
    pub committed: int,
    pub total: int,
    pub folded: bool,
    /// Acted since the last full raise.
    pub acted: bool,
}

impl View for Seat {
    type V = SeatModel;

    open spec fn view(&self) -> SeatModel {
        SeatModel {
            stack: self.stack as int,
            committed: self.committed as int,
            total: self.total_committed as int,
            folded: self.folded,
            acted: self.has_acted,
        }
    }
}

impl SeatModel {
    /// Still in the hand and able to act.
    pub open spec fn live(self) -> bool {
        !self.folded && self.stack > 0
    }

    /// The seat with chips moved from its stack into the pot.
    pub open spec fn paying(self, amount: int) -> SeatModel {
        SeatModel {
            stack: self.stack - amount,
            committed: self.committed + amount,
            total: self.total + amount,
            folded: self.folded,
            acted: self.acted,
        }
    }

    /// The seat once it has acted.
    pub open spec fn having_acted(self, acted: bool) -> SeatModel {
        SeatModel { acted, ..self }
    }
}

impl Seat {
    /// A seat with a starting stack and nothing invested.
    pub fn new(stack: u64) -> (seat: Seat)
        ensures
            seat@ == (SeatModel { stack: stack as int, committed: 0, total: 0, folded: false, acted: false }),
    {
        Seat { stack, committed: 0, total_committed: 0, folded: false, has_acted: false }
    }

    /// All chips are in the middle, so this seat can take no further action.
    pub fn is_all_in(&self) -> (all_in: bool)
        ensures
            all_in == (self@.stack == 0),
    {
        self.stack == 0
    }

    /// Still in the hand and able to act.
    pub fn is_live(&self) -> (live: bool)
        ensures
            live == self@.live(),
    {
        !self.folded && !self.is_all_in()
    }
}

/// What the player to act may legally do.
#[derive(Debug, Clone, Copy, PartialEq, Eq)]
pub struct LegalActions {
    pub can_fold: bool,
    pub can_check: bool,
    /// Chips needed to call, if calling is possible. Capped at the stack, so
    /// this is an all-in call when it equals the stack.
    pub call_cost: Option<u64>,
    /// Inclusive `(min, max)` total commitments for a legal raise.
    ///
    /// `min` equals `max` when the only raise available is all-in for less than
    /// a full raise.
    pub raise_to: Option<(u64, u64)>,
}

impl LegalActions {
    /// Whether an action is among the legal ones.
    pub open spec fn allows(self, action: Action) -> bool {
        match action {
            Action::Fold => self.can_fold,
            Action::Check => self.can_check,
            Action::Call => self.call_cost is Some,
            Action::RaiseTo(to) => match self.raise_to {
                Some((min, max)) => min <= to <= max,
                None => false,
            },
        }
    }

    /// Whether `action` is permitted.
    pub fn permits(&self, action: Action) -> (permitted: bool)
        ensures
            permitted == self.allows(action),
    {
        match action {
            Action::Fold => self.can_fold,
            Action::Check => self.can_check,
            Action::Call => self.call_cost.is_some(),
            Action::RaiseTo(to) => match self.raise_to {
                Some((min, max)) => min <= to && to <= max,
                None => false,
            },
        }
    }
}

/// Why an action was rejected.
#[derive(Debug, Clone, PartialEq, Eq)]
pub enum ActionError {
    /// The round is over; nobody is to act.
    RoundComplete,
    /// The action is not legal in this spot.
    Illegal { action: Action, legal: Box<LegalActions> },
}

/// A betting round as a mathematical value.
#[verifier::ext_equal]
pub struct Round {
    pub seats: Seq<SeatModel>,
    pub to_act: int,
    /// Highest commitment on this street.
    pub current_bet: int,
    /// Increment a raise must add to be a full raise.
    pub min_raise: int,
    /// The opening bet minimum after the flop.
    pub big_blind: int,
}

/// How many of the first `k` seats have not folded.
pub open spec fn unfolded(seats: Seq<SeatModel>, k: int) -> int
    decreases k,
{
    if k <= 0 {
        0
    } else {
        unfolded(seats, k - 1) + (if seats[k - 1].folded {
            0int
        } else {
            1
        })
    }
}

/// The highest commitment among the first `k` seats.
pub open spec fn highest(seats: Seq<SeatModel>, k: int) -> int
    decreases k,
{
    if k <= 0 {
        0
    } else if seats[k - 1].committed > highest(seats, k - 1) {
        seats[k - 1].committed
    } else {
        highest(seats, k - 1)
    }
}

/// The chips the first `k` seats have committed on this street.
pub open spec fn street_chips(seats: Seq<SeatModel>, k: int) -> int
    decreases k,
{
    if k <= 0 {
        0
    } else {
        street_chips(seats, k - 1) + seats[k - 1].committed
    }
}

/// Every chip of the first `k` seats: behind, or put in during the hand.
pub open spec fn all_chips(seats: Seq<SeatModel>, k: int) -> int
    decreases k,
{
    if k <= 0 {
        0
    } else {
        all_chips(seats, k - 1) + seats[k - 1].stack + seats[k - 1].total
    }
}

impl Round {
    pub open spec fn count(self) -> int {
        self.seats.len() as int
    }

    /// Whether a seat must still act: it can act at all, and either faces
    /// unmatched chips or has not acted since the last full raise.
    pub open spec fn owes(self, i: int) -> bool {
        self.seats[i].live() && (self.seats[i].committed < self.current_bet || !self.seats[i].acted)
    }

    /// Whether the round has finished: at most one player remains unfolded, or
    /// nobody still owes an action.
    pub open spec fn complete(self) -> bool {
        unfolded(self.seats, self.count()) <= 1 || forall|i: int| 0 <= i < self.count() ==> !#[trigger] self.owes(i)
    }

    /// What the seat to act still has to put in to match the bet.
    pub open spec fn owed(self) -> int {
        self.current_bet - self.seats[self.to_act].committed
    }

    /// The commitment of the seat to act with all of its chips in.
    pub open spec fn most(self) -> int {
        self.seats[self.to_act].committed + self.seats[self.to_act].stack
    }

    /// The commitment of a smallest full raise.
    pub open spec fn full_raise(self) -> int {
        if self.current_bet == 0 {
            self.big_blind
        } else {
            self.current_bet + self.min_raise
        }
    }

    /// What the seat to act may do. Folding when nothing is owed is strictly
    /// dominated by checking, and is left out. A raise is open to a seat that
    /// has not acted since the last full raise and has chips beyond the bet; a
    /// short stack may always move all in, even for less than a full raise.
    pub open spec fn legal(self) -> LegalActions {
        let stack = self.seats[self.to_act].stack;
        LegalActions {
            can_fold: self.owed() > 0,
            can_check: self.owed() == 0,
            call_cost: if self.owed() > 0 {
                Some(
                    (if self.owed() < stack {
                        self.owed()
                    } else {
                        stack
                    }) as u64,
                )
            } else {
                None
            },
            raise_to: if self.seats[self.to_act].acted || self.most() <= self.current_bet {
                None
            } else {
                Some(
                    (
                        (if self.full_raise() < self.most() {
                            self.full_raise()
                        } else {
                            self.most()
                        }) as u64,
                        self.most() as u64,
                    ),
                )
            },
        }
    }

    /// The first seat that owes an action, looking from `step` seats after
    /// `start` and going round the table; the seat to act where none does.
    pub open spec fn seek(self, start: int, step: int) -> int
        decreases self.count() - step,
    {
        if step >= self.count() {
            self.to_act
        } else if self.owes((start + step) % self.count()) {
            (start + step) % self.count()
        } else {
            self.seek(start, step + 1)
        }
    }

    /// The round with the turn given to the first seat from `start` that owes
    /// an action; unchanged once the round is over.
    pub open spec fn turning_to(self, start: int) -> Round {
        if self.complete() {
            self
        } else {
            Round { to_act: self.seek(start, 0), ..self }
        }
    }

    /// The round with the chips and flags that an action leaves, before the
    /// turn moves on.
    pub open spec fn played(self, action: Action) -> Round {
        let actor = self.to_act;
        let seat = self.seats[actor];
        match action {
            Action::Fold => Round {
                seats: self.seats.update(actor, SeatModel { folded: true, acted: true, ..seat }),
                ..self
            },
            Action::Check => Round { seats: self.seats.update(actor, seat.having_acted(true)), ..self },
            Action::Call => Round {
                seats: self.seats.update(
                    actor,
                    seat.paying(
                        if self.owed() < seat.stack {
                            self.owed()
                        } else {
                            seat.stack
                        },
                    ).having_acted(true),
                ),
                ..self
            },
            Action::RaiseTo(to) => {
                let raiser = seat.paying(to - seat.committed).having_acted(true);
                let full = to - self.current_bet >= self.min_raise;
                Round {
                    seats: Seq::new(
                        self.seats.len(),
                        |i: int|
                            if i == actor {
                                raiser
                            } else if full {
                                self.seats[i].having_acted(false)
                            } else {
                                self.seats[i]
                            },
                    ),
                    current_bet: to as int,
                    min_raise: if full {
                        to - self.current_bet
                    } else {
                        self.min_raise
                    },
                    ..self
                }
            },
        }
    }

    /// The round after an action.
    pub open spec fn after(self, action: Action) -> Round {
        let next = self.played(action);
        next.turning_to((self.to_act + 1) % self.count())
    }

    /// The round that the next street opens with.
    pub open spec fn reopened(self, first_to_act: int) -> Round {
        (Round {
            seats: self.seats.map_values(|seat: SeatModel| SeatModel { committed: 0, acted: false, ..seat }),
            current_bet: 0,
            min_raise: self.big_blind,
            to_act: first_to_act,
            ..self
        }).turning_to(first_to_act)
    }

    /// What holds of every round: at least two seats, nobody committed beyond
    /// the bet, all amounts in range, and an open round waits for a seat that
    /// owes an action.
    pub open spec fn sound(self) -> bool {
        &&& self.count() >= 2
        &&& self.count() <= usize::MAX
        &&& 0 <= self.to_act < self.count()
        &&& 0 <= self.current_bet <= u64::MAX
        &&& 1 <= self.min_raise <= u64::MAX
        &&& 1 <= self.big_blind <= u64::MAX
        &&& forall|i: int| 0 <= i < self.count() ==> sound_seat(#[trigger] self.seats[i], self.current_bet)
        &&& !self.complete() ==> self.owes(self.to_act)
    }
}

pub open spec fn sound_seat(seat: SeatModel, bet: int) -> bool {
    &&& 0 <= seat.stack
    &&& 0 <= seat.committed <= bet
    &&& 0 <= seat.total
    &&& seat.committed + seat.stack <= u64::MAX
    &&& seat.total + seat.stack <= u64::MAX
}

pub open spec fn seat_models(seats: Seq<Seat>) -> Seq<SeatModel> {
    seats.map_values(|seat: Seat| seat@)
}

/// A single betting round.
#[derive(Debug, Clone)]
pub struct BettingRound {
    seats: Vec<Seat>,
    to_act: usize,
    current_bet: u64,
    min_raise_increment: u64,
    big_blind: u64,
}

impl View for BettingRound {
    type V = Round;

    closed spec fn view(&self) -> Round {
        Round {
            seats: seat_models(self.seats@),
            to_act: self.to_act as int,
            current_bet: self.current_bet as int,
            min_raise: self.min_raise_increment as int,
            big_blind: self.big_blind as int,
        }
    }
}

proof fn lemma_highest(seats: Seq<SeatModel>, k: int, i: int)
    requires
        0 <= i < k <= seats.len(),
    ensures
        seats[i].committed <= highest(seats, k),
    decreases k,
{
    if i < k - 1 {
        lemma_highest(seats, k - 1, i);
    }
}

/// A round over seats whose turn is still to be settled.
pub open spec fn opening(seats: Seq<SeatModel>, first_to_act: int, big_blind: int) -> Round {
    let blind = if big_blind > 1 {
        big_blind
    } else {
        1
    };
    Round {
        seats,
        to_act: first_to_act,
        current_bet: highest(seats, seats.len() as int),
        min_raise: blind,
        big_blind: blind,
    }
}

/// The seats once the first `k` blinds are posted: each gives what is asked of
/// it or all it has, and posting is not acting.
pub open spec fn posted(seats: Seq<SeatModel>, blinds: Seq<(usize, u64)>, k: int) -> Seq<SeatModel>
    decreases k,
{
    if k <= 0 {
        seats
    } else {
        let before = posted(seats, blinds, k - 1);
        let (seat, amount) = blinds[k - 1];
        before.update(
            seat as int,
            before[seat as int].paying(
                if amount < before[seat as int].stack {
                    amount as int
                } else {
                    before[seat as int].stack
                },
            ),
        )
    }
}

/// Whether the chips of a seat fit the machine.
pub open spec fn fits(seat: SeatModel) -> bool {
    &&& 0 <= seat.stack
    &&& 0 <= seat.committed
    &&& 0 <= seat.total
    &&& seat.committed + seat.stack <= u64::MAX
    &&& seat.total + seat.stack <= u64::MAX
}

/// Looking round the whole table from any start finds a seat that owes, if one
/// does.
proof fn lemma_seek(round: Round, start: int, step: int)
    requires
        round.count() > 0,
        0 <= start < round.count(),
        0 <= step <= round.count(),
        0 <= round.to_act < round.count(),
        forall|k: int| 0 <= k < step ==> !round.owes(#[trigger] ((start + k) % round.count())),
        exists|i: int| 0 <= i < round.count() && #[trigger] round.owes(i),
    ensures
        0 <= round.seek(start, step) < round.count(),
        round.owes(round.seek(start, step)),
    decreases round.count() - step,
{
    let n = round.count();
    if step >= n {
        let i = choose|i: int| 0 <= i < n && #[trigger] round.owes(i);
        let k = if i >= start {
            i - start
        } else {
            i - start + n
        };
        if i >= start {
            vstd::arithmetic::div_mod::lemma_small_mod(i as nat, n as nat);
        } else {
            vstd::arithmetic::div_mod::lemma_mod_add_multiples_vanish(i, n);
            vstd::arithmetic::div_mod::lemma_small_mod(i as nat, n as nat);
        }
        assert((start + k) % n == i);
        assert(!round.owes((start + k) % n));
    } else {
        vstd::arithmetic::div_mod::lemma_mod_bound(start + step, n);
        if !round.owes((start + step) % n) {
            lemma_seek(round, start, step + 1);
        }
    }
}

impl BettingRound {
    /// Starts a round in which nobody has bet yet, `first_to_act` acts first.
    ///
    /// Use [`BettingRound::preflop`] for the blinds case.
    pub fn new(seats: Vec<Seat>, first_to_act: usize, big_blind: u64) -> (round: BettingRound)
        requires
            seats@.len() >= 2,
            first_to_act < seats@.len(),
            forall|i: int| 0 <= i < seats@.len() ==> fits((#[trigger] seats@[i])@),
        ensures
            round@ == opening(seat_models(seats@), first_to_act as int, big_blind as int).turning_to(
                first_to_act as int,
            ),
            round@.sound(),
    {
        let n: usize = seats.len();
        let mut current_bet: u64 = 0;
        let mut i: usize = 0;
        while i < n
            invariant
                i <= n == seats@.len(),
                current_bet == highest(seat_models(seats@), i as int),
            decreases n - i,
        {
            if seats[i].committed > current_bet {
                current_bet = seats[i].committed;
            }
            i = i + 1;
        }
        let blind: u64 = if big_blind > 1 {
            big_blind
        } else {
            1
        };
        let mut round = BettingRound {
            seats,
            to_act: first_to_act,
            current_bet,
            min_raise_increment: blind,
            big_blind: blind,
        };
        proof {
            assert(round@ =~= opening(seat_models(seats@), first_to_act as int, big_blind as int));
            assert forall|i: int| 0 <= i < round@.count() implies sound_seat(
                #[trigger] round@.seats[i],
                round@.current_bet,
            ) by {
                lemma_highest(seat_models(seats@), n as int, i);
                assert(fits(seats@[i]@));
            }
        }
        round.seek_actor_from(first_to_act);
        round
    }

    /// Starts a preflop round with blinds already posted.
    ///
    /// `blinds` gives `(seat, amount)` pairs, posted in order. Posting is not
    /// acting, so the big blind retains the option to raise.
    pub fn preflop(seats: Vec<Seat>, blinds: &[(usize, u64)], first_to_act: usize, big_blind: u64) -> (round: BettingRound)
        requires
            seats@.len() >= 2,
            first_to_act < seats@.len(),
            forall|i: int| 0 <= i < seats@.len() ==> fits((#[trigger] seats@[i])@),
            forall|b: int| 0 <= b < blinds@.len() ==> (#[trigger] blinds@[b]).0 < seats@.len(),
        ensures
            round@ == opening(
                posted(seat_models(seats@), blinds@, blinds@.len() as int),
                first_to_act as int,
                big_blind as int,
            ).turning_to(first_to_act as int),
            round@.sound(),
    {
        let ghost start = seat_models(seats@);
        let n: usize = seats.len();
        let mut seats = seats;
        let mut b: usize = 0;
        while b < blinds.len()
            invariant
                b <= blinds@.len(),
                n == seats@.len(),
                forall|i: int| 0 <= i < n ==> fits((#[trigger] seats@[i])@),
                forall|c: int| 0 <= c < blinds@.len() ==> (#[trigger] blinds@[c]).0 < n,
                seat_models(seats@) == posted(start, blinds@, b as int),
            decreases blinds@.len() - b,
        {
            let (seat, amount) = blinds[b];
            assert(blinds@[b as int].0 < n);
            let before = seats[seat];
            assert(fits(seats@[seat as int]@));
            let paid: u64 = if amount < before.stack {
                amount
            } else {
                before.stack
            };
            let ghost earlier = seats@;
            seats.set(
                seat,
                Seat {
                    stack: before.stack - paid,
                    committed: before.committed + paid,
                    total_committed: before.total_committed + paid,
                    folded: before.folded,
                    has_acted: before.has_acted,
                },
            );
            proof {
                assert(seat_models(seats@) =~= posted(start, blinds@, b + 1));
                assert forall|i: int| 0 <= i < n implies fits((#[trigger] seats@[i])@) by {
                    assert(fits(earlier[i]@));
                }
            }
            b = b + 1;
        }
        BettingRound::new(seats, first_to_act, big_blind)
    }

    pub fn seats(&self) -> (seats: &[Seat])
        ensures
            seat_models(seats@) == self@.seats,
    {
        self.seats.as_slice()
    }

    /// The highest commitment on this street.
    pub fn current_bet(&self) -> (bet: u64)
        ensures
            bet == self@.current_bet,
    {
        self.current_bet
    }

    /// The seat to act, or `None` when the round is complete.
    pub fn to_act(&self) -> (seat: Option<usize>)
        ensures
            seat == (if self@.complete() {
                None
            } else {
                Some(self@.to_act as usize)
            }),
    {
        if self.is_complete() {
            None
        } else {
            Some(self.to_act)
        }
    }

    /// Chips committed this street across all seats.
    pub fn street_total(&self) -> (total: u64)
        requires
            street_chips(self@.seats, self@.count()) <= u64::MAX,
        ensures
            total == street_chips(self@.seats, self@.count()),
    {
        let mut total: u64 = 0;
        let mut i: usize = 0;
        while i < self.seats.len()
            invariant
                i <= self.seats@.len(),
                street_chips(self@.seats, self@.count()) <= u64::MAX,
                total == street_chips(self@.seats, i as int),
            decreases self.seats@.len() - i,
        {
            proof {
                lemma_street_chips_grow(self.seats@, i + 1, self.seats@.len() as int);
            }
            total = total + self.seats[i].committed;
            i = i + 1;
        }
        total
    }

    /// Seats that have not folded.
    pub fn live_seat_count(&self) -> (count: usize)
        ensures
            count == unfolded(self@.seats, self@.count()),
    {
        let mut count: usize = 0;
        let mut i: usize = 0;
        while i < self.seats.len()
            invariant
                i <= self.seats@.len(),
                count <= i,
                count == unfolded(self@.seats, i as int),
            decreases self.seats@.len() - i,
        {
            if !self.seats[i].folded {
                count = count + 1;
            }
            i = i + 1;
        }
        count
    }

    /// Whether the round has finished.
    ///
    /// It has when at most one player remains unfolded, or when no unfolded,
    /// non-all-in player still owes an action.
    pub fn is_complete(&self) -> (complete: bool)
        ensures
            complete == self@.complete(),
    {
        if self.live_seat_count() <= 1 {
            return true;
        }
        let mut i: usize = 0;
        while i < self.seats.len()
            invariant
                i <= self.seats@.len(),
                unfolded(self@.seats, self@.count()) > 1,
                forall|j: int| 0 <= j < i ==> !#[trigger] self@.owes(j),
            decreases self.seats@.len() - i,
        {
            if self.owes_action(i) {
                assert(self@.owes(i as int));
                return false;
            }
            i = i + 1;
        }
        true
    }

    /// Whether this seat must still act: it can act at all, and either faces
    /// unmatched chips or has not acted since the last full raise.
    fn owes_action(&self, i: usize) -> (owes: bool)
        requires
            i < self@.count(),
        ensures
            owes == self@.owes(i as int),
    {
        let seat = self.seats[i];
        seat.is_live() && (seat.committed < self.current_bet || !seat.has_acted)
    }

    /// What the seat to act may do.
    pub fn legal_actions(&self) -> (legal: LegalActions)
        requires
            self@.sound(),
            !self@.complete(),
        ensures
            legal == self@.legal(),
    {
        let seat = self.seats[self.to_act];
        assert(sound_seat(self@.seats[self.to_act as int], self@.current_bet));
        let owed: u64 = self.current_bet - seat.committed;
        let call_cost: Option<u64> = if owed > 0 {
            Some(
                if owed < seat.stack {
                    owed
                } else {
                    seat.stack
                },
            )
        } else {
            None
        };
        let most: u64 = seat.committed + seat.stack;
        let raise_to: Option<(u64, u64)> = if seat.has_acted || most <= self.current_bet {
            None
        } else {
            let full: u64 = if self.current_bet == 0 {
                self.big_blind
            } else {
                self.current_bet.saturating_add(self.min_raise_increment)
            };
            Some(
                (
                    if full < most {
                        full
                    } else {
                        most
                    },
                    most,
                ),
            )
        };
        LegalActions { can_fold: owed > 0, can_check: owed == 0, call_cost, raise_to }
    }

    /// Applies `action` for the seat to act and moves the turn along. A refused
    /// action leaves the round as it was.
    pub fn apply(&mut self, action: Action) -> (result: Result<(), ActionError>)
        requires
            old(self)@.sound(),
        ensures
            final(self)@.sound(),
            result is Ok <==> !old(self)@.complete() && old(self)@.legal().allows(action),
            result is Ok ==> final(self)@ == old(self)@.after(action),
            result is Err ==> final(self)@ == old(self)@,
            old(self)@.complete() ==> result == Err::<(), ActionError>(ActionError::RoundComplete),
            !old(self)@.complete() && result is Err ==> (result matches Err(
                ActionError::Illegal { action: refused, legal },
            ) && refused == action && *legal == old(self)@.legal()),
    {
        if self.is_complete() {
            return Err(ActionError::RoundComplete);
        }
        let legal = self.legal_actions();
        if !legal.permits(action) {
            return Err(ActionError::Illegal { action, legal: Box::new(legal) });
        }
        let ghost before = self@;
        let actor: usize = self.to_act;
        let n: usize = self.seats.len();
        let seat = self.seats[actor];
        assert(sound_seat(before.seats[actor as int], before.current_bet));
        match action {
            Action::Fold => {
                self.seats.set(actor, Seat { folded: true, has_acted: true, ..seat });
            },
            Action::Check => {
                self.seats.set(actor, Seat { has_acted: true, ..seat });
            },
            Action::Call => {
                let owed: u64 = self.current_bet - seat.committed;
                let amount: u64 = if owed < seat.stack {
                    owed
                } else {
                    seat.stack
                };
                self.commit(actor, amount);
            },
            Action::RaiseTo(to) => {
                let increment: u64 = to - self.current_bet;
                self.commit(actor, to - seat.committed);
                if increment >= self.min_raise_increment {
                    self.min_raise_increment = increment;
                    self.reopen_to_others(actor);
                }
                self.current_bet = to;
            },
        }
        proof {
            assert(self@.seats =~= before.played(action).seats);
            assert(self@ =~= before.played(action));
            lemma_played_sound(before, action);
        }
        let next: usize = if actor + 1 < n {
            actor + 1
        } else {
            0
        };
        proof {
            if actor + 1 < n {
                vstd::arithmetic::div_mod::lemma_small_mod((actor + 1) as nat, n as nat);
            } else {
                vstd::arithmetic::div_mod::lemma_mod_self_0(n as int);
            }
            assert(next == (actor + 1) % (n as int));
        }
        self.seek_actor_from(next);
        Ok(())
    }

    /// Moves `amount` from a seat's stack into the pot, which is acting.
    fn commit(&mut self, i: usize, amount: u64)
        requires
            i < old(self)@.count(),
            fits(old(self)@.seats[i as int]),
            amount <= old(self)@.seats[i as int].stack,
        ensures
            final(self)@ == (Round {
                seats: old(self)@.seats.update(
                    i as int,
                    old(self)@.seats[i as int].paying(amount as int).having_acted(true),
                ),
                ..old(self)@
            }),
    {
        let seat = self.seats[i];
        self.seats.set(
            i,
            Seat {
                stack: seat.stack - amount,
                committed: seat.committed + amount,
                total_committed: seat.total_committed + amount,
                folded: seat.folded,
                has_acted: true,
            },
        );
        assert(self@.seats =~= old(self)@.seats.update(
            i as int,
            old(self)@.seats[i as int].paying(amount as int).having_acted(true),
        ));
    }

    /// Lets every seat but one act again.
    fn reopen_to_others(&mut self, actor: usize)
        requires
            actor < old(self)@.count(),
        ensures
            final(self)@ == (Round {
                seats: Seq::new(
                    old(self)@.seats.len(),
                    |i: int| old(self)@.seats[i].having_acted(i == actor),
                ),
                ..old(self)@
            }),
    {
        let n: usize = self.seats.len();
        let mut i: usize = 0;
        while i < n
            invariant
                i <= n == self.seats@.len() == old(self).seats@.len(),
                self.to_act == old(self).to_act,
                self.current_bet == old(self).current_bet,
                self.min_raise_increment == old(self).min_raise_increment,
                self.big_blind == old(self).big_blind,
                forall|j: int|
                    0 <= j < n ==> (#[trigger] self.seats@[j])@ == (if j < i {
                        old(self).seats@[j]@.having_acted(j == actor)
                    } else {
                        old(self).seats@[j]@
                    }),
            decreases n - i,
        {
            let seat = self.seats[i];
            self.seats.set(i, Seat { has_acted: i == actor, ..seat });
            i = i + 1;
        }
        assert(self@.seats =~= Seq::new(
            old(self)@.seats.len(),
            |i: int| old(self)@.seats[i].having_acted(i == actor),
        ));
    }

    /// Points the turn at the first seat from `start` onward that owes an
    /// action, wrapping around the table. `start` is inclusive.
    fn seek_actor_from(&mut self, start: usize)
        requires
            start < old(self)@.count(),
            old(self)@.count() >= 2,
            0 <= old(self)@.to_act < old(self)@.count(),
            1 <= old(self)@.min_raise,
            1 <= old(self)@.big_blind,
            forall|i: int|
                0 <= i < old(self)@.count() ==> sound_seat(
                    #[trigger] old(self)@.seats[i],
                    old(self)@.current_bet,
                ),
        ensures
            final(self)@ == old(self)@.turning_to(start as int),
            final(self)@.sound(),
    {
        let n: usize = self.seats.len();
        if self.is_complete() {
            return ;
        }
        let ghost before = self@;
        let mut step: usize = 0;
        let mut candidate: usize = start;
        proof {
            vstd::arithmetic::div_mod::lemma_small_mod(start as nat, n as nat);
            lemma_seek(before, start as int, 0);
        }
        while step < n && !self.owes_action(candidate)
            invariant
                self@ == before,
                n == self.seats@.len() == before.count(),
                n >= 2,
                start < n,
                step <= n,
                candidate < n,
                candidate == (start + step) % (n as int),
                before.seek(start as int, 0) == before.seek(start as int, step as int),
            decreases n - step,
        {
            proof {
                lemma_next_seat(start as int, step as int, n as int);
            }
            step = step + 1;
            candidate = if candidate + 1 < n {
                candidate + 1
            } else {
                0
            };
        }
        if step < n {
            self.to_act = candidate;
        }
        proof {
            let chosen = before.seek(start as int, 0);
            assert(self@ =~= Round { to_act: chosen, ..before });
            assert forall|i: int| self@.owes(i) == before.owes(i) by {}
            assert(self@.complete() == before.complete()) by {
                assert(self@.seats == before.seats);
                if self@.complete() && unfolded(self@.seats, self@.count()) > 1 {
                    assert forall|i: int| 0 <= i < before.count() implies !#[trigger] before.owes(i) by {
                        assert(!self@.owes(i));
                    }
                }
            }
        }
    }

    /// Clears street commitments and opens the next round with `first_to_act`.
    ///
    /// Per-hand totals are preserved, so pot construction still sees every chip.
    pub fn next_street(&mut self, first_to_act: usize)
        requires
            old(self)@.sound(),
            old(self)@.complete(),
            first_to_act < old(self)@.count(),
        ensures
            final(self)@ == old(self)@.reopened(first_to_act as int),
            final(self)@.sound(),
    {
        let n: usize = self.seats.len();
        let ghost before = self@;
        let mut i: usize = 0;
        while i < n
            invariant
                i <= n == self.seats@.len() == old(self).seats@.len(),
                self.to_act == old(self).to_act,
                self.big_blind == old(self).big_blind,
                forall|j: int|
                    0 <= j < n ==> (#[trigger] self.seats@[j])@ == (if j < i {
                        (SeatModel { committed: 0, acted: false, ..old(self).seats@[j]@ })
                    } else {
                        old(self).seats@[j]@
                    }),
            decreases n - i,
        {
            let seat = self.seats[i];
            self.seats.set(i, Seat { committed: 0, has_acted: false, ..seat });
            i = i + 1;
        }
        self.current_bet = 0;
        self.min_raise_increment = self.big_blind;
        self.to_act = first_to_act;
        proof {
            let cleared = before.seats.map_values(
                |seat: SeatModel| SeatModel { committed: 0, acted: false, ..seat },
            );
            assert(self@.seats =~= cleared);
            assert forall|i: int| 0 <= i < self@.count() implies sound_seat(#[trigger] self@.seats[i], 0) by {
                assert(sound_seat(before.seats[i], before.current_bet));
            }
        }
        self.seek_actor_from(first_to_act);
    }

    /// Per-seat totals for the whole hand, for [`crate::pot::build_pots`].
    pub fn contributions(&self) -> (totals: Vec<u64>)
        ensures
            totals@.len() == self@.count(),
            forall|i: int| 0 <= i < self@.count() ==> #[trigger] totals@[i] == self@.seats[i].total,
    {
        let mut totals: Vec<u64> = Vec::new();
        let mut i: usize = 0;
        while i < self.seats.len()
            invariant
                i <= self.seats@.len(),
                totals@.len() == i,
                forall|j: int| 0 <= j < i ==> #[trigger] totals@[j] == self@.seats[j].total,
            decreases self.seats@.len() - i,
        {
            totals.push(self.seats[i].total_committed);
            i = i + 1;
        }
        totals
    }

    /// Per-seat fold flags, for [`crate::pot::build_pots`].
    pub fn folded_flags(&self) -> (folded: Vec<bool>)
        ensures
            folded@.len() == self@.count(),
            forall|i: int| 0 <= i < self@.count() ==> #[trigger] folded@[i] == self@.seats[i].folded,
    {
        let mut folded: Vec<bool> = Vec::new();
        let mut i: usize = 0;
        while i < self.seats.len()
            invariant
                i <= self.seats@.len(),
                folded@.len() == i,
                forall|j: int| 0 <= j < i ==> #[trigger] folded@[j] == self@.seats[j].folded,
            decreases self.seats@.len() - i,
        {
            folded.push(self.seats[i].folded);
            i = i + 1;
        }
        folded
    }
}

proof fn lemma_next_seat(start: int, step: int, n: int)
    requires
        0 < n,
        0 <= start,
        0 <= step,
    ensures
        (start + step + 1) % n == (if (start + step) % n + 1 < n {
            (start + step) % n + 1
        } else {
            0
        }),
{
    let here = (start + step) % n;
    vstd::arithmetic::div_mod::lemma_mod_bound(start + step, n);
    vstd::arithmetic::div_mod::lemma_add_mod_noop_right(1, start + step, n);
    assert((1 + here) % n == (1 + (start + step)) % n);
    if here + 1 < n {
        vstd::arithmetic::div_mod::lemma_small_mod((here + 1) as nat, n as nat);
    } else {
        vstd::arithmetic::div_mod::lemma_mod_self_0(n);
    }
}

proof fn lemma_street_chips_grow(seats: Seq<Seat>, j: int, k: int)
    requires
        0 <= j <= k <= seats.len(),
    ensures
        0 <= street_chips(seat_models(seats), j) <= street_chips(seat_models(seats), k),
    decreases k,
{
    if j < k {
        lemma_street_chips_grow(seats, j, k - 1);
    } else if k > 0 {
        lemma_street_chips_grow(seats, j - 1, k - 1);
    }
}

/// An allowed action leaves every seat within its means and the bet.
proof fn lemma_played_sound(round: Round, action: Action)
    requires
        round.sound(),
        !round.complete(),
        round.legal().allows(action),
    ensures
        ({
            let next = round.played(action);
            &&& next.count() == round.count()
            &&& next.to_act == round.to_act
            &&& 0 <= next.current_bet <= u64::MAX
            &&& 1 <= next.min_raise <= u64::MAX
            &&& next.big_blind == round.big_blind
            &&& forall|i: int| 0 <= i < next.count() ==> sound_seat(#[trigger] next.seats[i], next.current_bet)
        }),
{
    let next = round.played(action);
    assert(sound_seat(round.seats[round.to_act], round.current_bet));
    assert forall|i: int| 0 <= i < next.count() implies sound_seat(#[trigger] next.seats[i], next.current_bet) by {
        assert(sound_seat(round.seats[i], round.current_bet));
    }
}

/// The chips the first `k` seats have behind or committed on this street.
pub open spec fn in_play(seats: Seq<SeatModel>, k: int) -> int
    decreases k,
{
    if k <= 0 {
        0
    } else {
        in_play(seats, k - 1) + seats[k - 1].stack + seats[k - 1].committed
    }
}

proof fn lemma_same_chips(a: Seq<SeatModel>, b: Seq<SeatModel>, k: int)
    requires
        0 <= k <= a.len(),
        a.len() == b.len(),
        forall|i: int|
            0 <= i < k ==> (#[trigger] a[i]).stack + a[i].total == b[i].stack + b[i].total,
    ensures
        all_chips(a, k) == all_chips(b, k),
    decreases k,
{
    if k > 0 {
        lemma_same_chips(a, b, k - 1);
    }
}

proof fn lemma_same_in_play(a: Seq<SeatModel>, b: Seq<SeatModel>, k: int)
    requires
        0 <= k <= a.len(),
        a.len() == b.len(),
        forall|i: int|
            0 <= i < k ==> (#[trigger] a[i]).stack + a[i].committed == b[i].stack + b[i].committed,
    ensures
        in_play(a, k) == in_play(b, k),
    decreases k,
{
    if k > 0 {
        lemma_same_in_play(a, b, k - 1);
    }
}

/// No action creates or destroys a chip, neither over the hand nor over the
/// street.
pub proof fn law_actions_conserve_chips(round: Round, action: Action)
    requires
        round.sound(),
        !round.complete(),
        round.legal().allows(action),
    ensures
        all_chips(round.after(action).seats, round.count()) == all_chips(round.seats, round.count()),
        in_play(round.after(action).seats, round.count()) == in_play(round.seats, round.count()),
{
    lemma_same_chips(round.after(action).seats, round.seats, round.count());
    lemma_same_in_play(round.after(action).seats, round.seats, round.count());
}

/// Opening the next street leaves every stack and every hand total as it was.
pub proof fn law_next_street_keeps_totals(round: Round, first_to_act: int)
    ensures
        round.reopened(first_to_act).count() == round.count(),
        forall|i: int|
            0 <= i < round.count() ==> {
                let seat = #[trigger] round.reopened(first_to_act).seats[i];
                &&& seat.total == round.seats[i].total
                &&& seat.stack == round.seats[i].stack
                &&& seat.folded == round.seats[i].folded
                &&& seat.committed == 0
                &&& !seat.acted
            },
{
}

/// A raise that is short of a full one does not reopen the betting: whoever had
/// acted still has, and may not raise when the turn comes round.
pub proof fn law_short_raise_does_not_reopen(round: Round, to: u64, i: int)
    requires
        round.sound(),
        !round.complete(),
        round.legal().allows(Action::RaiseTo(to)),
        to - round.current_bet < round.min_raise,
        0 <= i < round.count(),
        i != round.to_act,
    ensures
        round.after(Action::RaiseTo(to)).seats[i] == round.seats[i],
        round.after(Action::RaiseTo(to)).min_raise == round.min_raise,
        round.seats[i].acted && round.after(Action::RaiseTo(to)).to_act == i
            ==> round.after(Action::RaiseTo(to)).legal().raise_to is None,
{
}

/// A full raise reopens the betting: everyone else who can act owes an action
/// again, and may raise when it has chips beyond the new bet.
pub proof fn law_full_raise_reopens(round: Round, to: u64, i: int)
    requires
        round.sound(),
        !round.complete(),
        round.legal().allows(Action::RaiseTo(to)),
        to - round.current_bet >= round.min_raise,
        0 <= i < round.count(),
        i != round.to_act,
        round.seats[i].live(),
    ensures
        ({
            let next = round.after(Action::RaiseTo(to));
            &&& next.owes(i)
            &&& next.to_act == i && round.seats[i].committed + round.seats[i].stack > to
                ==> next.legal().raise_to is Some
        }),
{
}

/// Posting a blind is not acting: a seat that has only posted still owes an
/// action, so the round stays open for it while another player is in the hand.
pub proof fn law_blinds_keep_the_option(round: Round, i: int)
    requires
        0 <= i < round.count(),
        round.seats[i].live(),
        !round.seats[i].acted,
        unfolded(round.seats, round.count()) > 1,
    ensures
        round.owes(i),
        !round.complete(),
{
    assert(round.owes(i));
}

proof fn lemma_posted_flags(seats: Seq<SeatModel>, blinds: Seq<(usize, u64)>, k: int)
    requires
        0 <= k <= blinds.len(),
        forall|b: int| 0 <= b < blinds.len() ==> (#[trigger] blinds[b]).0 < seats.len(),
    ensures
        posted(seats, blinds, k).len() == seats.len(),
        forall|i: int|
            0 <= i < seats.len() ==> {
                let seat = #[trigger] posted(seats, blinds, k)[i];
                &&& seat.acted == seats[i].acted
                &&& seat.folded == seats[i].folded
                &&& seat.stack + seat.total == seats[i].stack + seats[i].total
                &&& seat.stack + seat.committed == seats[i].stack + seats[i].committed
            },
    decreases k,
{
    if k > 0 {
        lemma_posted_flags(seats, blinds, k - 1);
        assert(blinds[k - 1].0 < seats.len());
    }
}

/// Posting the blinds moves chips from the stacks to the middle and changes
/// nothing else: nobody has acted or folded by it, and no chip is lost.
pub proof fn law_posting_is_not_acting(seats: Seq<SeatModel>, blinds: Seq<(usize, u64)>)
    requires
        forall|b: int| 0 <= b < blinds.len() ==> (#[trigger] blinds[b]).0 < seats.len(),
    ensures
        ({
            let after = posted(seats, blinds, blinds.len() as int);
            &&& after.len() == seats.len()
            &&& forall|i: int|
                0 <= i < seats.len() ==> (#[trigger] after[i]).acted == seats[i].acted && after[i].folded
                    == seats[i].folded
            &&& all_chips(after, seats.len() as int) == all_chips(seats, seats.len() as int)
        }),
{
    lemma_posted_flags(seats, blinds, blinds.len() as int);
    lemma_same_chips(posted(seats, blinds, blinds.len() as int), seats, seats.len() as int);
}

/// The seat to act in an open round can always do something: check when nothing
/// is owed, fold or call when something is.
pub proof fn law_somebody_can_always_act(round: Round)
    requires
        round.sound(),
        !round.complete(),
    ensures
        round.legal().allows(Action::Check) || (round.legal().allows(Action::Fold) && round.legal().allows(
            Action::Call,
        )),
        round.seats[round.to_act].live(),
{
    assert(sound_seat(round.seats[round.to_act], round.current_bet));
}

impl Action {
    /// The words for the action.
    pub open spec fn words(self) -> Seq<char> {
        match self {
            Action::Fold => "Fold"@,
            Action::Check => "Check"@,
            Action::Call => "Call"@,
            Action::RaiseTo(amount) => "RaiseTo("@ + text::digits(amount as int) + ")"@,
        }
    }

    /// The name of the action, with the amount of a raise.
    pub fn to_string(&self) -> (words: String)
        ensures
            words@ == self.words(),
    {
        match self {
            Action::Fold => String::from_str("Fold"),
            Action::Check => String::from_str("Check"),
            Action::Call => String::from_str("Call"),
            Action::RaiseTo(amount) => {
                let mut words: String = String::from_str("RaiseTo(");
                let amount: String = text::decimal(*amount);
                words.append(amount.as_str());
                words.append(")");
                words
            },
        }
    }
}

/// The words for a flag.
pub open spec fn flag_words(flag: bool) -> Seq<char> {
    if flag {
        "true"@
    } else {
        "false"@
    }
}

/// The words for a flag.
fn flag_text(flag: bool) -> (words: &'static str)
    ensures
        words@ == flag_words(flag),
{
    if flag {
        "true"
    } else {
        "false"
    }
}

impl LegalActions {
    /// The words for the options.
    pub open spec fn words(self) -> Seq<char> {
        "LegalActions { can_fold: "@ + flag_words(self.can_fold) + ", can_check: "@ + flag_words(
            self.can_check,
        ) + ", call_cost: "@ + (match self.call_cost {
            Some(cost) => "Some("@ + text::digits(cost as int) + ")"@,
            None => "None"@,
        }) + ", raise_to: "@ + (match self.raise_to {
            Some((least, most)) => "Some(("@ + text::digits(least as int) + ", "@ + text::digits(
                most as int,
            ) + "))"@,
            None => "None"@,
        }) + " }"@
    }

    /// The options, one after the other.
    pub fn to_string(&self) -> (words: String)
        ensures
            words@ == self.words(),
    {
        let mut words: String = String::from_str("LegalActions { can_fold: ");
        words.append(flag_text(self.can_fold));
        words.append(", can_check: ");
        words.append(flag_text(self.can_check));
        words.append(", call_cost: ");
        match self.call_cost {
            Some(cost) => {
                words.append("Some(");
                let cost: String = text::decimal(cost);
                words.append(cost.as_str());
                words.append(")");
            },
            None => {
                words.append("None");
            },
        }
        words.append(", raise_to: ");
        match self.raise_to {
            Some((least, most)) => {
                words.append("Some((");
                let least: String = text::decimal(least);
                words.append(least.as_str());
                words.append(", ");
                let most: String = text::decimal(most);
                words.append(most.as_str());
                words.append("))");
            },
            None => {
                words.append("None");
            },
        }
        words.append(" }");
        assert(words@ =~= self.words());
        words
    }
}

impl ActionError {
    /// The words for the error.
    pub open spec fn words(self) -> Seq<char> {
        match self {
            ActionError::RoundComplete => "betting round is already complete"@,
            ActionError::Illegal { action, legal } => action.words()
                + " is not legal here; permitted: "@ + legal.words(),
        }
    }

    /// What was wrong, in words.
    pub fn to_string(&self) -> (words: String)
        ensures
            words@ == self.words(),
    {
        match self {
            ActionError::RoundComplete => String::from_str("betting round is already complete"),
            ActionError::Illegal { action, legal } => {
                let mut words: String = action.to_string();
                words.append(" is not legal here; permitted: ");
                let options: String = legal.to_string();
                words.append(options.as_str());
                words
            },
        }
    }
}

/// How many seats `seat` is past `start`, going round a table of `n`.
spec fn past(start: int, seat: int, n: int) -> int {
    if seat >= start {
        seat - start
    } else {
        seat - start + n
    }
}

/// No seat before the one that is sought owes an action.
proof fn lemma_seek_skips(round: Round, start: int, step: int, seat: int)
    requires
        0 <= start < round.count(),
        0 <= step,
        0 <= round.to_act < round.count(),
        0 <= seat < round.count(),
        step <= past(start, seat, round.count()) < past(start, round.seek(start, step), round.count()),
    ensures
        !round.owes(seat),
    decreases round.count() - step,
{
    let n = round.count();
    if step < n {
        let here = (start + step) % n;
        if start + step < n {
            vstd::arithmetic::div_mod::lemma_small_mod((start + step) as nat, n as nat);
        } else {
            vstd::arithmetic::div_mod::lemma_mod_add_multiples_vanish(start + step - n, n);
            vstd::arithmetic::div_mod::lemma_small_mod((start + step - n) as nat, n as nat);
        }
        assert(past(start, here, n) == step);
        if !round.owes(here) {
            if seat != here {
                lemma_seek_skips(round, start, step + 1, seat);
            }
        }
    }
}

/// A round is over when at most one player has not folded, or when nobody who
/// has chips and cards is short of the bet or has yet to act.
pub proof fn law_a_round_is_over_when_nobody_has_to_act(round: Round)
    ensures
        round.complete() <==> {
            ||| forall|i: int, j: int|
                0 <= i < j < round.count() ==> (#[trigger] round.seats[i]).folded || (#[trigger] round.seats[j]).folded
            ||| forall|i: int|
                0 <= i < round.count() ==> (#[trigger] round.seats[i]).folded || round.seats[i].stack <= 0 || (
                round.seats[i].committed >= round.current_bet && round.seats[i].acted)
        },
{
    lemma_unfolded(round.seats, round.count());
    if forall|i: int| 0 <= i < round.count() ==> !#[trigger] round.owes(i) {
        assert forall|i: int| 0 <= i < round.count() implies (#[trigger] round.seats[i]).folded || round.seats[i].stack
            <= 0 || (round.seats[i].committed >= round.current_bet && round.seats[i].acted) by {
            assert(!round.owes(i));
        }
    }
}

proof fn lemma_unfolded(seats: Seq<SeatModel>, k: int)
    requires
        0 <= k <= seats.len(),
    ensures
        0 <= unfolded(seats, k),
        unfolded(seats, k) == 0 <==> forall|i: int| 0 <= i < k ==> (#[trigger] seats[i]).folded,
        unfolded(seats, k) <= 1 <==> forall|i: int, j: int|
            0 <= i < j < k ==> (#[trigger] seats[i]).folded || (#[trigger] seats[j]).folded,
    decreases k,
{
    if k > 0 {
        lemma_unfolded(seats, k - 1);
        let all = forall|i: int| 0 <= i < k - 1 ==> (#[trigger] seats[i]).folded;
        let pairs = forall|i: int, j: int|
            0 <= i < j < k - 1 ==> (#[trigger] seats[i]).folded || (#[trigger] seats[j]).folded;
        let more = forall|i: int, j: int|
            0 <= i < j < k ==> (#[trigger] seats[i]).folded || (#[trigger] seats[j]).folded;
        if more {
            assert(pairs);
            if !seats[k - 1].folded {
                assert forall|i: int| 0 <= i < k - 1 implies (#[trigger] seats[i]).folded by {
                    assert(seats[i].folded || seats[k - 1].folded);
                }
            }
        }
        if all {
            assert(seats[k - 1].folded ==> forall|i: int| 0 <= i < k ==> (#[trigger] seats[i]).folded);
        }
    }
}

/// After an action that leaves the round open, the turn is the nearest seat's,
/// clockwise after the actor, that has chips and cards and is short of the bet
/// or has yet to act; nobody between them is left out.
pub proof fn law_the_turn_passes_to_the_nearest_seat(round: Round, action: Action, between: int)
    requires
        round.sound(),
        !round.complete(),
        round.legal().allows(action),
        !round.after(action).complete(),
        0 <= between < round.count(),
        ({
            let (from, to) = (round.to_act, round.after(action).to_act);
            if from < to {
                from < between < to
            } else {
                between > from || between < to
            }
        }),
    ensures
        ({
            let next = round.after(action);
            let (skipped, turn) = (next.seats[between], next.seats[next.to_act]);
            &&& 0 <= next.to_act < round.count()
            &&& !turn.folded && turn.stack > 0 && (turn.committed < next.current_bet || !turn.acted)
            &&& skipped.folded || skipped.stack <= 0 || (skipped.committed >= next.current_bet && skipped.acted)
        }),
{
    lemma_played_sound(round, action);
    let played = round.played(action);
    let n = round.count();
    assert(played.count() == n);
    let start = (round.to_act + 1) % n;
    if round.to_act + 1 < n {
        vstd::arithmetic::div_mod::lemma_small_mod((round.to_act + 1) as nat, n as nat);
    } else {
        vstd::arithmetic::div_mod::lemma_mod_self_0(n);
    }
    lemma_complete_alike(played, round.after(action));
    lemma_first_to_owe(played, start, between);
}

/// Whose turn it is does not decide whether a round is over.
proof fn lemma_complete_alike(one: Round, other: Round)
    requires
        one.seats == other.seats,
        one.current_bet == other.current_bet,
    ensures
        one.complete() == other.complete(),
{
    assert forall|i: int| 0 <= i < one.count() implies #[trigger] one.owes(i) == other.owes(i) by {}
    if other.complete() && !one.complete() {
        let i = choose|i: int| 0 <= i < one.count() && #[trigger] one.owes(i);
        assert(other.owes(i));
    }
    if one.complete() && !other.complete() {
        let i = choose|i: int| 0 <= i < one.count() && #[trigger] other.owes(i);
        assert(one.owes(i));
    }
}

/// The turn settled from a seat on: whoever gets it owes an action, and nobody
/// from that seat up to it does.
proof fn lemma_first_to_owe(round: Round, start: int, between: int)
    requires
        0 <= start < round.count(),
        0 <= round.to_act < round.count(),
        !round.complete(),
        0 <= between < round.count(),
    ensures
        ({
            let to = round.turning_to(start).to_act;
            &&& 0 <= to < round.count()
            &&& round.owes(to)
            &&& past(start, between, round.count()) < past(start, to, round.count()) ==> !round.owes(between)
        }),
{
    assert(exists|i: int| 0 <= i < round.count() && #[trigger] round.owes(i));
    lemma_seek(round, start, 0);
    if past(start, between, round.count()) < past(start, round.seek(start, 0), round.count()) {
        lemma_seek_skips(round, start, 0, between);
    }
}

/// A street opens with the seat it is given, or the nearest one clockwise after
/// it that can act and has to.
pub proof fn law_a_street_opens_with_the_nearest_seat(round: Round, first_to_act: int, between: int)
    requires
        0 <= first_to_act < round.count(),
        !round.reopened(first_to_act).complete(),
        0 <= between < round.count(),
        ({
            let to = round.reopened(first_to_act).to_act;
            if first_to_act <= to {
                first_to_act <= between < to
            } else {
                between >= first_to_act || between < to
            }
        }),
    ensures
        ({
            let to = round.reopened(first_to_act).to_act;
            &&& 0 <= to < round.count()
            &&& !round.seats[to].folded && round.seats[to].stack > 0
            &&& round.seats[between].folded || round.seats[between].stack <= 0
        }),
{
    let fresh = Round {
        seats: round.seats.map_values(|seat: SeatModel| SeatModel { committed: 0, acted: false, ..seat }),
        current_bet: 0,
        min_raise: round.big_blind,
        to_act: first_to_act,
        ..round
    };
    lemma_complete_alike(fresh, round.reopened(first_to_act));
    lemma_first_to_owe(fresh, first_to_act, between);
}

/// A hand opens with the seat it is given, or the nearest one clockwise after it
/// that has chips and cards and is short of the bet or has yet to act.
pub proof fn law_a_hand_opens_with_the_nearest_seat(
    seats: Seq<SeatModel>,
    first_to_act: int,
    big_blind: int,
    between: int,
)
    requires
        0 <= first_to_act < seats.len(),
        !opening(seats, first_to_act, big_blind).turning_to(first_to_act).complete(),
        0 <= between < seats.len(),
        ({
            let to = opening(seats, first_to_act, big_blind).turning_to(first_to_act).to_act;
            if first_to_act <= to {
                first_to_act <= between < to
            } else {
                between >= first_to_act || between < to
            }
        }),
    ensures
        ({
            let round = opening(seats, first_to_act, big_blind).turning_to(first_to_act);
            let (skipped, turn) = (seats[between], seats[round.to_act]);
            &&& 0 <= round.to_act < seats.len()
            &&& !turn.folded && turn.stack > 0 && (turn.committed < round.current_bet || !turn.acted)
            &&& skipped.folded || skipped.stack <= 0 || (skipped.committed >= round.current_bet && skipped.acted)
        }),
{
    let round = opening(seats, first_to_act, big_blind);
    lemma_complete_alike(round, round.turning_to(first_to_act));
    lemma_first_to_owe(round, first_to_act, between);
}

/// A hand opens at the most that anybody has put in, with raises of at least a
/// big blind and a chip.
pub proof fn law_a_hand_opens_at_the_largest_blind(
    seats: Seq<SeatModel>,
    first_to_act: int,
    big_blind: int,
    seat: int,
)
    requires
        0 <= seat < seats.len(),
        forall|i: int| 0 <= i < seats.len() ==> 0 <= (#[trigger] seats[i]).committed,
    ensures
        ({
            let round = opening(seats, first_to_act, big_blind);
            &&& round.seats == seats
            &&& seats[seat].committed <= round.current_bet
            &&& round.current_bet == 0 || exists|i: int|
                0 <= i < seats.len() && (#[trigger] seats[i]).committed == round.current_bet
            &&& round.min_raise >= 1 && round.min_raise >= big_blind
            &&& round.min_raise == 1 || round.min_raise == big_blind
            &&& round.big_blind == round.min_raise
        }),
{
    lemma_highest_is_held(seats, seats.len() as int, seat);
}

proof fn lemma_highest_is_held(seats: Seq<SeatModel>, k: int, seat: int)
    requires
        0 <= seat < k <= seats.len(),
        forall|i: int| 0 <= i < seats.len() ==> 0 <= (#[trigger] seats[i]).committed,
    ensures
        seats[seat].committed <= highest(seats, k),
        highest(seats, k) == 0 || exists|i: int| 0 <= i < k && (#[trigger] seats[i]).committed == highest(seats, k),
    decreases k,
{
    if k > 1 {
        lemma_highest_is_held(
            seats,
            k - 1,
            if seat < k - 1 {
                seat
            } else {
                0
            },
        );
    }
    if seats[k - 1].committed > highest(seats, k - 1) {
        assert(seats[k - 1].committed == highest(seats, k));
    }
}

/// What may be done: fold or call where chips are owed, check where none are,
/// and raise, unless the seat has acted since the last full raise, to any
/// amount above the bet that is a full raise or everything the seat has.
pub proof fn law_what_may_be_done(round: Round, to: u64)
    requires
        round.sound(),
        !round.complete(),
    ensures
        ({
            let (seat, legal) = (round.seats[round.to_act], round.legal());
            let behind = seat.committed < round.current_bet;
            let everything = seat.committed + seat.stack;
            &&& legal.allows(Action::Fold) == behind
            &&& legal.allows(Action::Check) == !behind
            &&& legal.allows(Action::Call) == behind
            &&& legal.call_cost matches Some(cost) ==> 0 < cost <= seat.stack && (seat.committed + cost
                == round.current_bet || (cost == seat.stack && seat.committed + cost < round.current_bet))
            &&& legal.allows(Action::RaiseTo(to)) <==> {
                &&& !seat.acted
                &&& round.current_bet < to <= everything
                &&& to == everything || (round.current_bet > 0 && to >= round.current_bet + round.min_raise) || (
                round.current_bet == 0 && to >= round.big_blind)
            }
        }),
{
    let seat = round.seats[round.to_act];
    assert(sound_seat(seat, round.current_bet));
    assert(round.owes(round.to_act));
}

/// What an action does to the actor and to the others: a fold leaves the chips
/// and nobody else changes; a check moves nothing; a call matches the bet or
/// puts everything in; a raise puts the actor, and the bet, at the amount.
pub proof fn law_actions_do_what_they_say(round: Round, action: Action, other: int)
    requires
        round.sound(),
        !round.complete(),
        round.legal().allows(action),
        0 <= other < round.count(),
        other != round.to_act,
    ensures
        ({
            let next = round.after(action);
            let (before, seat) = (round.seats[round.to_act], next.seats[round.to_act]);
            let paid = seat.committed - before.committed;
            &&& next.count() == round.count()
            &&& next.big_blind == round.big_blind
            &&& seat.acted
            &&& paid >= 0
            &&& seat.stack == before.stack - paid && seat.total == before.total + paid
            &&& seat.stack >= 0
            &&& seat.folded == (action is Fold)
            &&& next.seats[other].stack == round.seats[other].stack
            &&& next.seats[other].committed == round.seats[other].committed
            &&& next.seats[other].total == round.seats[other].total
            &&& next.seats[other].folded == round.seats[other].folded
            &&& match action {
                Action::Fold | Action::Check => paid == 0,
                Action::Call => seat.committed == round.current_bet || (seat.stack == 0 && seat.committed
                    < round.current_bet),
                Action::RaiseTo(to) => seat.committed == to,
            }
            &&& match action {
                Action::RaiseTo(to) => next.current_bet == to,
                _ => next.current_bet == round.current_bet && next.min_raise == round.min_raise
                    && next.seats[other].acted == round.seats[other].acted,
            }
        }),
{
    assert(sound_seat(round.seats[round.to_act], round.current_bet));
    assert(round.owes(round.to_act));
    assert(round.played(action).count() == round.count());
}

/// A raise by at least the last one is a full raise: the next must add as much,
/// and everybody else is asked again.
pub proof fn law_a_full_raise_sets_the_next(round: Round, to: u64, other: int)
    requires
        round.sound(),
        !round.complete(),
        round.legal().allows(Action::RaiseTo(to)),
        0 <= other < round.count(),
        other != round.to_act,
    ensures
        ({
            let next = round.after(Action::RaiseTo(to));
            let full = to >= round.current_bet + round.min_raise;
            &&& next.min_raise == (if full {
                to - round.current_bet
            } else {
                round.min_raise
            })
            &&& next.seats[other].acted == (!full && round.seats[other].acted)
        }),
{
    assert(round.played(Action::RaiseTo(to)).count() == round.count());
}

/// A seat that no blind names keeps its chips, and one that a single blind names
/// puts in that much, or everything it has.
pub proof fn law_blinds_are_posted_by_those_they_name(
    seats: Seq<SeatModel>,
    blinds: Seq<(usize, u64)>,
    k: int,
    seat: int,
    named: int,
)
    requires
        0 <= seat < seats.len(),
        0 <= k <= blinds.len(),
        forall|b: int| 0 <= b < blinds.len() ==> (#[trigger] blinds[b]).0 < seats.len(),
        forall|b: int| 0 <= b < k && (#[trigger] blinds[b]).0 == seat ==> b == named,
    ensures
        ({
            let after = posted(seats, blinds, k);
            let paid = after[seat].committed - seats[seat].committed;
            &&& after.len() == seats.len()
            &&& after[seat].stack == seats[seat].stack - paid
            &&& after[seat].total == seats[seat].total + paid
            &&& after[seat].acted == seats[seat].acted && after[seat].folded == seats[seat].folded
            &&& if 0 <= named < k && blinds[named].0 == seat {
                &&& paid == blinds[named].1 || paid == seats[seat].stack
                &&& paid <= blinds[named].1 && paid <= seats[seat].stack
            } else {
                paid == 0
            }
        }),
    decreases k,
{
    if k > 0 {
        law_blinds_are_posted_by_those_they_name(seats, blinds, k - 1, seat, named);
        if blinds[k - 1].0 == seat {
            assert(named == k - 1);
        }
    }
}

/// A street total is what everybody has put in on it: it grows by what one seat
/// adds.
pub proof fn law_street_totals_add_up(seats: Seq<SeatModel>, seat: int, more: int)
    requires
        0 <= seat < seats.len(),
    ensures
        street_chips(seats.update(seat, seats[seat].paying(more)), seats.len() as int) == street_chips(
            seats,
            seats.len() as int,
        ) + more,
        (forall|i: int| 0 <= i < seats.len() ==> (#[trigger] seats[i]).committed == 0) ==> street_chips(
            seats,
            seats.len() as int,
        ) == 0,
{
    lemma_street_total(seats, seat, more, seats.len() as int);
}

proof fn lemma_street_total(seats: Seq<SeatModel>, seat: int, more: int, k: int)
    requires
        0 <= seat < seats.len(),
        0 <= k <= seats.len(),
    ensures
        street_chips(seats.update(seat, seats[seat].paying(more)), k) == street_chips(seats, k) + (if seat < k {
            more
        } else {
            0
        }),
        (forall|i: int| 0 <= i < seats.len() ==> (#[trigger] seats[i]).committed == 0) ==> street_chips(seats, k) == 0,
    decreases k,
{
    if k > 0 {
        lemma_street_total(seats, seat, more, k - 1);
    }
}

} // verus!
