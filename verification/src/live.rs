//! What a session at a live table does with what it sees.
//!
//! A misreading costs a reading, a wrong action costs a stack. So nothing is
//! done unless it can be shown that it should be: a picture has to agree with
//! the one before it, the client has to be asking, every figure has to have
//! read and the money has to add up, and a session that loses too much stops.
//!
//! Amounts are in chips, a hundred to the big blind.
use vstd::prelude::*;

use crate::betting::Action;
use crate::betting::Street;
use crate::bot::Source;
use crate::bot::Told;
use crate::bridge::Reading;
use crate::bridge::SeatReading;
use crate::bytes;
use crate::card;
use crate::card::Card;
use crate::double;
use crate::precision;
use crate::text;

verus! {

/// How long, in milliseconds, the hero may be to act before a reading that
/// cannot be trusted is acted on all the same.
pub const DEADLINE: u64 = 6_000;

/// How often, in milliseconds, to look for a dialog to dismiss.
pub const DIALOG_EVERY: u64 = 2_000;

/// How long, in milliseconds, to watch for the action row to clear.
pub const TOOK: u64 = 2_500;

/// How many hands can be counted without their chips outgrowing the count.
pub const MOST_HANDS: u64 = 0x0010_0000_0000_0000;

/// How many pictures a recorded session keeps.
pub const FRAMES: usize = 400;

/// What to do with a turn.
#[derive(Debug, Clone, Copy, PartialEq, Eq, Structural)]
pub enum Choice {
    Fold,
    /// Check when there is nothing to call, call when there is.
    Passive,
    /// Bet or raise to a total.
    Aggressive { to: u64 },
}

impl Choice {
    /// The words for the choice.
    pub open spec fn words(self) -> Seq<char> {
        match self {
            Choice::Fold => "fold"@,
            Choice::Passive => "check/call"@,
            Choice::Aggressive { .. } => "bet/raise"@,
        }
    }

    /// The name of the choice.
    pub fn name(&self) -> (name: &'static str)
        ensures
            name@ == self.words(),
    {
        match self {
            Choice::Fold => "fold",
            Choice::Passive => "check/call",
            Choice::Aggressive { .. } => "bet/raise",
        }
    }
}

/// A number of hundredths in decimal, with as many places as it has.
pub open spec fn in_places(size: int) -> Seq<char> {
    let whole = text::digits(size / 100);
    let rest = size % 100;
    if rest == 0 {
        whole
    } else if rest % 10 == 0 {
        whole + "."@ + text::digits(rest / 10)
    } else {
        whole + "."@ + text::digits(rest / 10) + text::digits(rest % 10)
    }
}

/// An amount in big blinds as it is written: the fewest digits that are read as
/// the same number in double precision.
pub open spec fn in_blinds(chips: int) -> Seq<char> {
    in_places(double::shortest(double::quotient(chips, 100), 19))
}

/// A moderate amount is written with the decimals that it has.
pub proof fn law_moderate_amounts_are_written_as_they_are(chips: int)
    requires
        0 <= chips < 0x4_0000_0000_0000,
    ensures
        in_blinds(chips) == in_places(chips),
{
    double::lemma_shortest(chips, 19);
}

/// An amount in big blinds as it is written.
pub fn blinds_text(chips: u64) -> (words: String)
    ensures
        words@ == in_blinds(chips as int),
{
    proof {
        double::lemma_hundredths(chips as int);
    }
    let size: u128 = double::shortest_of(double::quotient_of(chips, 100));
    let mut words: String = text::long_decimal(size / 100);
    let rest: u64 = (size % 100) as u64;
    if rest != 0 {
        words.append(".");
        let tenths: String = text::decimal(rest / 10);
        words.append(tenths.as_str());
        if rest % 10 != 0 {
            let hundredths: String = text::decimal(rest % 10);
            words.append(hundredths.as_str());
        }
    }
    words
}

/// Why nothing was done with a picture.
#[derive(Debug, Clone, Copy, PartialEq, Eq)]
pub enum Held {
    /// The file that stops everything is there.
    KillSwitch,
    /// The session has lost, or done, as much as it may.
    StopLoss,
    /// The window could not be captured, or came back blank.
    NoPicture,
    /// The two readings disagreed, so something was moving.
    NotSettled,
    /// The client is not asking the hero to act.
    NotOurTurn,
    /// The client went on asking long after the click.
    NotTaken,
    /// The client has sat the hero out.
    SatOut,
    /// The money on the table did not add up to the pot.
    NotAdding,
    /// A figure the decision rests on did not read.
    NotConfident(&'static str),
    /// The button that the choice needs is not on screen.
    NoSuchButton(Choice),
    /// The raise field did not read back as the amount that was wanted.
    WrongAmount { wanted: u64, showing: Option<u64> },
}

impl Held {
    /// The words for the reason.
    pub open spec fn words(self) -> Seq<char> {
        match self {
            Held::KillSwitch => "the kill switch file is present"@,
            Held::StopLoss => "the session loss limit has been reached"@,
            Held::NoPicture => "the window could not be captured"@,
            Held::NotSettled => "two readings disagreed, so the table was still moving"@,
            Held::NotAdding => "the chips on the table did not add up to the pot"@,
            Held::NotTaken => "the action row was still up after the click, so nothing took"@,
            Held::NotOurTurn => "the client is not asking us to act"@,
            Held::SatOut =>
                "the client has sat us out; nothing will be dealt until we sit back in"@,
            Held::NotConfident(missing) => missing@ + " did not read"@,
            Held::NoSuchButton(choice) => "there is no "@ + choice.words() + " button on screen"@,
            Held::WrongAmount { wanted, showing: Some(showing) } => "the raise field reads "@
                + in_blinds(showing as int) + " where "@ + in_blinds(wanted as int)
                + " was wanted, so nothing was committed"@,
            Held::WrongAmount { wanted, showing: None } =>
                "the raise field could not be read after writing "@ + in_blinds(wanted as int)
                + " to it, so nothing was committed"@,
        }
    }

    /// The reason in words.
    pub fn explain(&self) -> (words: String)
        ensures
            words@ == self.words(),
    {
        match self {
            Held::KillSwitch => String::from_str("the kill switch file is present"),
            Held::StopLoss => String::from_str("the session loss limit has been reached"),
            Held::NoPicture => String::from_str("the window could not be captured"),
            Held::NotSettled => {
                String::from_str("two readings disagreed, so the table was still moving")
            },
            Held::NotAdding => {
                String::from_str("the chips on the table did not add up to the pot")
            },
            Held::NotTaken => {
                String::from_str("the action row was still up after the click, so nothing took")
            },
            Held::NotOurTurn => String::from_str("the client is not asking us to act"),
            Held::SatOut => String::from_str(
                "the client has sat us out; nothing will be dealt until we sit back in",
            ),
            Held::NotConfident(missing) => {
                let mut words: String = String::from_str(missing);
                words.append(" did not read");
                words
            },
            Held::NoSuchButton(choice) => {
                let mut words: String = String::from_str("there is no ");
                words.append(choice.name());
                words.append(" button on screen");
                words
            },
            Held::WrongAmount { wanted, showing } => match showing {
                Some(showing) => {
                    let mut words: String = String::from_str("the raise field reads ");
                    let shown: String = blinds_text(*showing);
                    words.append(shown.as_str());
                    words.append(" where ");
                    let sought: String = blinds_text(*wanted);
                    words.append(sought.as_str());
                    words.append(" was wanted, so nothing was committed");
                    words
                },
                None => {
                    let mut words: String = String::from_str(
                        "the raise field could not be read after writing ",
                    );
                    let sought: String = blinds_text(*wanted);
                    words.append(sought.as_str());
                    words.append(" to it, so nothing was committed");
                    words
                },
            },
        }
    }
}

/// The limits that a session runs under.
#[derive(Debug, Clone, Copy, PartialEq, Eq)]
pub struct Safety {
    /// Stop after losing this many big blinds against the starting stack, as
    /// the bits of a number in double precision.
    pub stop_loss_bb: u64,
    /// Stop after this many actions, whatever else happens.
    pub max_actions: usize,
}

impl Default for Safety {
    /// Two hundred big blinds and five hundred actions.
    fn default() -> (safety: Safety)
        ensures
            safety.stop_loss_bb == double::quotient(200, 1),
            safety.max_actions == 500,
    {
        Safety { stop_loss_bb: double::quotient_of(200, 1), max_actions: 500 }
    }
}

/// Whether a stack has lost as much as may be lost, both brought to big blinds
/// and the loss worked out in double precision. A negative limit may be won
/// by, and one that is no number is never reached.
pub open spec fn is_lost(started: int, now: int, limit: u64) -> bool {
    let (before, after) = (double::quotient(started, 100), double::quotient(now, 100));
    if limit <= double::ENDLESS {
        before >= after && double::distance(before, after) >= limit
    } else if 0x8000_0000_0000_0000 <= limit <= 0x8000_0000_0000_0000 + double::ENDLESS {
        before >= after || double::distance(before, after) <= limit - 0x8000_0000_0000_0000
    } else {
        false
    }
}

fn has_lost(started: u64, now: u64, limit: u64) -> (lost: bool)
    ensures
        lost == is_lost(started as int, now as int, limit),
{
    proof {
        double::lemma_hundredths(started as int);
        double::lemma_hundredths(now as int);
    }
    let before: u64 = double::quotient_of(started, 100);
    let after: u64 = double::quotient_of(now, 100);
    let apart: u64 = double::distance_of(before, after);
    if limit <= double::ENDLESS {
        before >= after && apart >= limit
    } else if limit >= 0x8000_0000_0000_0000 {
        let most: u64 = limit - 0x8000_0000_0000_0000;
        most <= double::ENDLESS && (before >= after || apart <= most)
    } else {
        false
    }
}

impl Safety {
    /// Why the session must stop, if it must. A stack that did not read is no
    /// loss.
    pub open spec fn breach(
        self,
        stopped: bool,
        started: Option<u64>,
        now: Option<u64>,
        actions: usize,
    ) -> Option<Held> {
        if stopped {
            Some(Held::KillSwitch)
        } else if actions >= self.max_actions {
            Some(Held::StopLoss)
        } else {
            match (started, now) {
                (Some(started), Some(now)) if is_lost(started as int, now as int, self.stop_loss_bb) => Some(
                    Held::StopLoss,
                ),
                _ => None,
            }
        }
    }

    /// Whether the session must stop, given whether the file that stops it is
    /// there, where the stack started and stands, and how much was done.
    pub fn breached(
        &self,
        stopped: bool,
        started: Option<u64>,
        now: Option<u64>,
        actions: usize,
    ) -> (held: Option<Held>)
        ensures
            held == self.breach(stopped, started, now, actions),
    {
        if stopped {
            return Some(Held::KillSwitch);
        }
        if actions >= self.max_actions {
            return Some(Held::StopLoss);
        }
        match (started, now) {
            (Some(started), Some(now)) => {
                if has_lost(started, now, self.stop_loss_bb) {
                    Some(Held::StopLoss)
                } else {
                    None
                }
            },
            _ => None,
        }
    }
}

/// A session that is stopped stays stopped as it loses more and does more.
pub proof fn law_a_breach_is_final(
    safety: Safety,
    started: u64,
    now: u64,
    later: u64,
    actions: usize,
    more: usize,
)
    requires
        safety.breach(false, Some(started), Some(now), actions) is Some,
        later <= now,
        actions <= more,
    ensures
        safety.breach(false, Some(started), Some(later), more) is Some,
        safety.breach(true, Some(started), Some(later), more) == Some(Held::KillSwitch),
{
    let (before, after, last) = (
        double::quotient(started as int, 100),
        double::quotient(now as int, 100),
        double::quotient(later as int, 100),
    );
    double::lemma_quotient_grows(later as int, now as int, 100);
    double::lemma_quotient_grows(0, started as int, 100);
    if before >= after {
        double::lemma_distance_grows(last, after, before);
    } else if before <= last {
        double::lemma_distance_grows(before, last, after);
    }
}

/// A session that has not lost is stopped by nothing but its count of actions.
pub proof fn law_winning_never_stops_a_session(
    safety: Safety,
    started: Option<u64>,
    now: Option<u64>,
    actions: usize,
)
    requires
        0 < safety.stop_loss_bb < 0x8000_0000_0000_0000,
        actions < safety.max_actions,
        (started, now) matches (Some(started), Some(now)) ==> started <= now,
    ensures
        safety.breach(false, started, now, actions) is None,
{
    if let (Some(started), Some(now)) = (started, now) {
        let before = double::quotient(started as int, 100);
        double::lemma_quotient_grows(started as int, now as int, 100);
        double::lemma_distance_grows(before, before, before);
    }
}

/// What a session has won or lost, counted a hand at a time by the hero's
/// stack from one deal to the next.
#[derive(Debug, Clone, PartialEq, Eq)]
pub struct Ledger {
    /// The hero's cards this hand, to notice a new deal.
    pub hole: Vec<Card>,
    /// The hero's stack when this hand was dealt.
    pub opened: Option<u64>,
    pub hands: u64,
    pub net: i128,
    pub best: i128,
    pub worst: i128,
}

impl Ledger {
    /// Whether nothing counted is out of proportion.
    pub open spec fn sound(self) -> bool {
        let most = self.hands * u64::MAX;
        &&& -most <= self.net <= most
        &&& 0 <= self.best <= u64::MAX
        &&& -(u64::MAX as int) <= self.worst <= 0
    }

    /// Whether a reading is the first of a new deal.
    pub open spec fn is_deal(self, hole: Seq<Card>, stack: Option<u64>) -> bool {
        hole.len() == 2 && stack is Some && hole != self.hole@
    }

    /// Whether a ledger is another with one more finished hand.
    pub open spec fn closes(self, after: Ledger, net: int) -> bool {
        &&& after.hands == self.hands + 1
        &&& after.net == self.net + net
        &&& after.best == (if net > self.best {
            net
        } else {
            self.best as int
        })
        &&& after.worst == (if net < self.worst {
            net
        } else {
            self.worst as int
        })
    }

    /// Nothing counted.
    pub fn new() -> (ledger: Ledger)
        ensures
            ledger.sound(),
            ledger.hole@.len() == 0,
            ledger.opened is None,
            ledger.hands == 0,
            ledger.net == 0,
            ledger.best == 0,
            ledger.worst == 0,
    {
        Ledger { hole: Vec::new(), opened: None, hands: 0, net: 0, best: 0, worst: 0 }
    }

    /// Notes a reading of the hero's cards and stack, and reports what the last
    /// hand came to if this is the first that is seen of a new one.
    pub fn observe(&mut self, hole: &Vec<Card>, stack: Option<u64>) -> (finished: Option<i128>)
        requires
            old(self).sound(),
            old(self).hands < MOST_HANDS,
        ensures
            final(self).sound(),
            !old(self).is_deal(hole@, stack) ==> *final(self) == *old(self) && finished is None,
            old(self).is_deal(hole@, stack) ==> {
                &&& final(self).hole@ == hole@
                &&& final(self).opened == stack
                &&& match old(self).opened {
                    Some(opened) => {
                        &&& finished == Some((stack->Some_0 - opened) as i128)
                        &&& old(self).closes(*final(self), stack->Some_0 - opened)
                    },
                    None => {
                        &&& finished is None
                        &&& final(self).hands == old(self).hands
                        &&& final(self).net == old(self).net
                        &&& final(self).best == old(self).best
                        &&& final(self).worst == old(self).worst
                    },
                }
            },
    {
        if hole.len() != 2 {
            return None;
        }
        let stack: u64 = match stack {
            Some(stack) => stack,
            None => {
                return None;
            },
        };
        if self.hole.len() == 2 && self.hole[0] == hole[0] && self.hole[1] == hole[1] {
            assert(hole@ =~= self.hole@);
            return None;
        }
        proof {
            if hole@ == self.hole@ {
                assert(self.hole@.len() == 2);
            }
        }
        let before: Option<u64> = self.opened;
        let mut cards: Vec<Card> = Vec::new();
        cards.push(hole[0]);
        cards.push(hole[1]);
        assert(cards@ =~= hole@);
        self.hole = cards;
        self.opened = Some(stack);
        match before {
            Some(opened) => {
                let net: i128 = stack as i128 - opened as i128;
                proof {
                    let hands = self.hands as int;
                    assert((hands + 1) * u64::MAX == hands * u64::MAX + u64::MAX)
                        by (nonlinear_arith);
                    assert(hands * u64::MAX <= MOST_HANDS * u64::MAX) by (nonlinear_arith)
                        requires
                            0 <= hands <= MOST_HANDS,
                    ;
                }
                self.hands = self.hands + 1;
                self.net = self.net + net;
                if net > self.best {
                    self.best = net;
                }
                if net < self.worst {
                    self.worst = net;
                }
                Some(net)
            },
            None => None,
        }
    }

    /// Hands counted, and what they came to.
    pub fn tally(&self) -> (tally: (u64, i128))
        ensures
            tally == (self.hands, self.net),
    {
        (self.hands, self.net)
    }

    /// The best and worst single hand.
    pub fn extremes(&self) -> (extremes: (i128, i128))
        ensures
            extremes == (self.best, self.worst),
    {
        (self.best, self.worst)
    }

    /// What a hundred hands came to, once there are any: a hundred times the
    /// net result, over the hands.
    pub fn per_hundred(&self) -> (rate: Option<(i128, u64)>)
        requires
            self.sound(),
            self.hands <= MOST_HANDS,
        ensures
            rate == (if self.hands > 0 {
                Some(((self.net * 100) as i128, self.hands))
            } else {
                None::<(i128, u64)>
            }),
    {
        if self.hands > 0 {
            proof {
                let hands = self.hands as int;
                assert(hands * u64::MAX <= MOST_HANDS * u64::MAX) by (nonlinear_arith)
                    requires
                        0 <= hands <= MOST_HANDS,
                ;
            }
            Some((self.net * 100, self.hands))
        } else {
            None
        }
    }
}

impl Default for Ledger {
    fn default() -> (ledger: Ledger)
        ensures
            ledger.sound(),
            ledger.hole@.len() == 0,
            ledger.opened is None,
            ledger.hands == 0,
            ledger.net == 0,
            ledger.best == 0,
            ledger.worst == 0,
    {
        Ledger::new()
    }
}

/// However many hands are counted, what they came to is the stack that the
/// last of them opened with less the stack that the first one did.
pub proof fn law_a_ledger_counts_every_chip(before: Ledger, after: Ledger, opened: u64, stack: u64)
    requires
        before.opened == Some(opened),
        after.opened == Some(stack),
        before.closes(after, stack - opened),
    ensures
        stack - after.net == opened - before.net,
{
}

/// The safest thing that can be done with a reading that cannot be trusted:
/// check where that is free, else give the hand up. A price read off an
/// untrusted reading is no basis for calling.
pub fn last_resort(to_call: Option<u64>) -> (choice: Choice)
    ensures
        choice == (if to_call == Some(0u64) {
            Choice::Passive
        } else {
            Choice::Fold
        }),
{
    match to_call {
        Some(0) => Choice::Passive,
        _ => Choice::Fold,
    }
}

/// The size nearest to an amount that a client can show: a whole number of
/// tenths of a big blind, worked out in double precision.
pub open spec fn shown_size(chips: int) -> int {
    10 * double::rounded(double::product(double::ratio(chips, 100), 10))
}

/// The size nearest to an amount that a client can show.
pub fn rounded_size(chips: u64) -> (size: u64)
    requires
        chips <= u64::MAX - 0x3000,
    ensures
        size == shown_size(chips as int),
{
    proof {
        double::lemma_tenths(chips as int);
    }
    double::whole_of(double::product_of(double::ratio_of(chips, 100), 10), u64::MAX) * 10
}

/// Of moderate amounts, what can be shown is asked for as it is, and nothing is
/// more than half a tenth away from what is asked for.
pub proof fn law_sizes_round_to_what_shows(chips: int)
    requires
        0 <= chips < 0x4_0000_0000_0000,
    ensures
        chips % 10 == 0 ==> shown_size(chips) == chips,
        shown_size(chips) % 10 == 0,
        -5 <= chips - shown_size(chips) <= 5,
{
    double::lemma_tenths(chips);
}

/// Whether an amount that shows is the one that was wanted: less than a twentieth
/// of a big blind from it, in double precision.
pub open spec fn is_close(shown: int, wanted: int) -> bool {
    double::distance(double::quotient(shown, 100), double::quotient(wanted, 100)) < double::quotient(5, 100)
}

/// Whether the raise field took an amount, by what it shows afterwards.
pub fn amount_took(wanted: u64, showing: Option<u64>) -> (took: Result<(), Held>)
    ensures
        took == (match showing {
            Some(shown) if is_close(shown as int, wanted as int) => Ok::<(), Held>(()),
            _ => Err::<(), Held>(Held::WrongAmount { wanted, showing }),
        }),
{
    match showing {
        Some(shown) => {
            proof {
                double::lemma_hundredths(shown as int);
                double::lemma_hundredths(wanted as int);
            }
            let apart: u64 = double::distance_of(
                double::quotient_of(shown, 100),
                double::quotient_of(wanted, 100),
            );
            if apart < double::quotient_of(5, 100) {
                Ok(())
            } else {
                Err(Held::WrongAmount { wanted, showing })
            }
        },
        None => Err(Held::WrongAmount { wanted, showing }),
    }
}

/// What was found out about a picture, as far as it had to be.
#[derive(Debug, Clone, Copy, PartialEq, Eq)]
pub struct Findings {
    /// Whether there was a picture to read.
    pub pictured: bool,
    /// Whether the reading agrees with the one before it.
    pub settled: bool,
    /// Whether the client shows that it has sat the hero out.
    pub sat_out: bool,
    /// Why the session must stop.
    pub breach: Option<Held>,
    /// Whether the client is asking the hero to act.
    pub to_act: bool,
    /// The figure that did not read.
    pub missing: Option<&'static str>,
    /// Whether the money adds up.
    pub consistent: bool,
}

/// Why nothing may be done with a picture, if so: the first of what is wrong
/// with it. A dialog over the table makes it unreadable, still or quiet, so
/// being sat out goes before each of these.
pub open spec fn objection(found: Findings) -> Option<Held> {
    if !found.pictured {
        if found.sat_out {
            Some(Held::SatOut)
        } else {
            Some(Held::NoPicture)
        }
    } else if !found.settled {
        if found.sat_out {
            Some(Held::SatOut)
        } else {
            Some(Held::NotSettled)
        }
    } else if found.breach is Some {
        found.breach
    } else if !found.to_act {
        if found.sat_out {
            Some(Held::SatOut)
        } else {
            Some(Held::NotOurTurn)
        }
    } else if found.missing is Some {
        Some(Held::NotConfident(found.missing->Some_0))
    } else if !found.consistent {
        Some(Held::NotAdding)
    } else {
        None
    }
}

/// Judges a picture: why nothing may be done with it, if so.
pub fn assess(found: &Findings) -> (held: Option<Held>)
    ensures
        held == objection(*found),
{
    if !found.pictured {
        return Some(
            if found.sat_out {
                Held::SatOut
            } else {
                Held::NoPicture
            },
        );
    }
    if !found.settled {
        return Some(
            if found.sat_out {
                Held::SatOut
            } else {
                Held::NotSettled
            },
        );
    }
    if let Some(held) = found.breach {
        return Some(held);
    }
    if !found.to_act {
        return Some(
            if found.sat_out {
                Held::SatOut
            } else {
                Held::NotOurTurn
            },
        );
    }
    if let Some(missing) = found.missing {
        return Some(Held::NotConfident(missing));
    }
    if !found.consistent {
        return Some(Held::NotAdding);
    }
    None
}

/// Nothing is done unless everything speaks for it: there is a picture, it has
/// settled, no limit is breached, the client is asking, every figure read and
/// the money adds up.
pub proof fn law_nothing_is_done_in_doubt(found: Findings)
    ensures
        objection(found) is None <==> found.pictured && found.settled && found.breach is None
            && found.to_act && found.missing is None && found.consistent,
{
}

/// What to do while waiting for the client to take an action.
#[derive(Debug, Clone, Copy, PartialEq, Eq, Structural)]
pub enum Waiting {
    /// It took.
    Taken,
    /// It did not, and the waiting is over.
    Abandoned,
    /// Look again.
    Again,
}

/// What a look after a click shows: whether the client is still asking, where
/// it could be read, and how long the waiting has lasted. A picture that cannot
/// be read is no evidence either way.
pub fn after_click(asking: Option<bool>, waited: u64) -> (waiting: Waiting)
    ensures
        waiting == (if asking == Some(false) {
            Waiting::Taken
        } else if waited >= TOOK {
            Waiting::Abandoned
        } else {
            Waiting::Again
        }),
{
    match asking {
        Some(false) => Waiting::Taken,
        _ => {
            if waited >= TOOK {
                Waiting::Abandoned
            } else {
                Waiting::Again
            }
        },
    }
}

/// Whether to look for a dialog, that long after the last look.
pub fn dialog_is_due(since: Option<u64>) -> (due: bool)
    ensures
        due == (match since {
            Some(since) => since >= DIALOG_EVERY,
            None => true,
        }),
{
    match since {
        Some(since) => since >= DIALOG_EVERY,
        None => true,
    }
}

/// A picture as it is kept: its width and height in four bytes each, lowest
/// first, and then its pixels.
pub fn raw_frame(width: u32, height: u32, rgb: &[u8]) -> (file: Vec<u8>)
    ensures
        file@ == bytes::little(width as int, 4) + bytes::little(height as int, 4) + rgb@,
{
    let mut file: Vec<u8> = Vec::new();
    bytes::put_little(&mut file, width as u64, 4);
    bytes::put_little(&mut file, height as u64, 4);
    bytes::put_all(&mut file, rgb);
    assert(file@ =~= bytes::little(width as int, 4) + bytes::little(height as int, 4) + rgb@);
    file
}

/// Whether a picture is worth keeping: the hero holds cards that could not be
/// read.
pub fn is_unread(hero_in_hand: bool, hole: usize) -> (unread: bool)
    ensures
        unread == (hero_in_hand && hole != 2),
{
    hero_in_hand && hole != 2
}

/// An amount in big blinds with one decimal: the chips over a hundred, in double
/// precision.
pub open spec fn in_tenths(chips: int) -> Seq<char> {
    text::tenths(double::in_parts(double::ratio(chips, 100), 10))
}

/// An amount in big blinds with one decimal.
fn tenths_text(chips: u64) -> (words: String)
    ensures
        words@ == in_tenths(chips as int),
{
    let blinds: u64 = double::ratio_of(chips, 100);
    proof {
        double::lemma_ratio_bound(chips as int, 100);
    }
    text::with_tenths(double::parts_of(blinds, 10))
}

/// A probability in percent without decimals, by the bit pattern that it is
/// stored as: a sign bit, an exponent of eight bits, and the digits.
pub open spec fn percent_words(word: u32) -> Seq<char> {
    let sign = if word >= 0x8000_0000 {
        "-"@
    } else {
        ""@
    };
    let (exponent, rest) = (word as int % 0x8000_0000 / 0x80_0000, word as int % 0x80_0000);
    if exponent == 255 {
        if rest == 0 {
            sign + "inf"@
        } else {
            "NaN"@
        }
    } else {
        let (digits, power) = if exponent == 0 {
            (rest, -149int)
        } else {
            (rest + 0x80_0000, exponent - 150)
        };
        if power >= 0 {
            sign + text::digits(100 * (digits * double::pow2(power)))
        } else {
            sign + text::digits(precision::nearest(100 * digits, double::pow2(-power)))
        }
    }
}

/// A hundred times a number is the number with two zeros behind it.
proof fn lemma_hundredfold(value: int)
    requires
        0 < value,
    ensures
        text::digits(100 * value) == text::digits(value).push('0').push('0'),
{
    assert((100 * value) / 10 == 10 * value && (100 * value) % 10 == 0);
    assert((10 * value) / 10 == value && (10 * value) % 10 == 0);
    assert(text::digits(10 * value) == text::digits(value).push(text::digit(0)));
    assert(text::digits(100 * value) == text::digits(10 * value).push(text::digit(0)));
}

/// A probability in percent without decimals.
pub fn percent_text(word: u32) -> (words: String)
    ensures
        words@ == percent_words(word),
{
    let mut words: String = String::from_str(
        if word >= 0x8000_0000 {
            "-"
        } else {
            ""
        },
    );
    let exponent: u32 = word % 0x8000_0000 / 0x80_0000;
    let rest: u32 = word % 0x80_0000;
    if exponent == 255 {
        if rest == 0 {
            words.append("inf");
            return words;
        }
        return String::from_str("NaN");
    }
    let (digits, power): (u32, i32) = if exponent == 0 {
        (rest, -149)
    } else {
        (rest + 0x80_0000, exponent as i32 - 150)
    };
    if power >= 0 {
        let raised: u64 = power as u64;
        let p: u128 = double::power(raised);
        proof {
            double::lemma_pow2_grows(power as int, 104);
            double::lemma_power_of_100();
            double::lemma_pow2(100);
            double::lemma_pow2(101);
            double::lemma_pow2(102);
            double::lemma_pow2(103);
            assert(0 < digits * p <= 0xFF_FFFF * 0x100_0000_0000_0000_0000_0000_0000) by (nonlinear_arith)
                requires
                    0 < digits <= 0xFF_FFFF,
                    0 < p <= 0x100_0000_0000_0000_0000_0000_0000,
            ;
            lemma_hundredfold(digits * p);
            reveal_strlit("00");
        }
        let whole: String = text::long_decimal(digits as u128 * p);
        words.append(whole.as_str());
        words.append("00");
        proof {
            let sign = if word >= 0x8000_0000 {
                "-"@
            } else {
                ""@
            };
            assert(words@ =~= sign + text::digits(100 * (digits * p)));
        }
        return words;
    }
    let less: u64 = (-power) as u64;
    if less > 100 {
        proof {
            double::lemma_pow2_grows(100, less as int);
            double::lemma_power_of_100();
            double::lemma_nothing_near(100 * digits, double::pow2(less as int));
        }
        let nothing: String = text::decimal(0);
        words.append(nothing.as_str());
        return words;
    }
    let d: u128 = double::power(less);
    proof {
        double::lemma_pow2_grows(less as int, 100);
        double::lemma_power_of_100();
    }
    let percent: String = text::long_decimal(precision::nearest_of(100 * digits as u128, d));
    words.append(percent.as_str());
    words
}

/// Where a decision came from.
#[derive(Debug, Clone, PartialEq, Eq)]
pub enum Origin {
    /// A solve of the spot named.
    Solve { spot: String },
    /// The fallback, for the reason given.
    Fallback { reason: String },
}

impl Origin {
    /// The words for where the decision came from.
    pub open spec fn words(self) -> Seq<char> {
        match self {
            Origin::Solve { spot } => spot@,
            Origin::Fallback { reason } => "HEURISTIC - "@ + reason@,
        }
    }

    /// Where a decision that was told of came from.
    pub fn of(source: &Source) -> (origin: Origin)
        ensures
            match (*source, origin) {
                (Source::Solve { spot, .. }, Origin::Solve { spot: name }) => name@ == spot@,
                (Source::Fallback { reason }, Origin::Fallback { reason: why }) => why@ == reason.words(),
                _ => false,
            },
    {
        match source {
            Source::Solve { spot, .. } => Origin::Solve { spot: String::from_str(spot.as_str()) },
            Source::Fallback { reason } => Origin::Fallback { reason: String::from_str(reason.name()) },
        }
    }

    /// The words for where the decision came from.
    pub fn explain(&self) -> (words: String)
        ensures
            words@ == self.words(),
    {
        match self {
            Origin::Solve { spot } => String::from_str(spot.as_str()),
            Origin::Fallback { reason } => {
                let mut words: String = String::from_str("HEURISTIC - ");
                words.append(reason.as_str());
                words
            },
        }
    }
}

/// A decision as a review writes it.
#[derive(Debug, Clone, PartialEq, Eq)]
pub struct Account {
    pub hole: [Card; 2],
    pub street: Street,
    pub board: Vec<Card>,
    pub pot: u64,
    pub to_call: u64,
    pub origin: Origin,
    /// Each move considered, with its probability as it is stored.
    pub frequencies: Vec<(String, u32)>,
    pub action: Action,
}

/// The first `n` moves of a list with how often each is made, two spaces apart.
pub open spec fn frequency_words(frequencies: Seq<(String, u32)>, n: int) -> Seq<char>
    decreases n,
{
    if n <= 0 {
        seq![]
    } else {
        let one = frequencies[n - 1].0@ + " "@ + percent_words(frequencies[n - 1].1) + "%"@;
        if n == 1 {
            one
        } else {
            frequency_words(frequencies, n - 1) + "  "@ + one
        }
    }
}

/// The moves of a list with how often each is made.
fn frequency_text(frequencies: &Vec<(String, u32)>) -> (words: String)
    ensures
        words@ == frequency_words(frequencies@, frequencies@.len() as int),
{
    let mut words: String = String::new();
    let mut i: usize = 0;
    assert(words@ =~= Seq::empty());
    while i < frequencies.len()
        invariant
            i <= frequencies@.len(),
            words@ == frequency_words(frequencies@, i as int),
        decreases frequencies@.len() - i,
    {
        let ghost before = words@;
        if i > 0 {
            words.append("  ");
        }
        words.append(frequencies[i].0.as_str());
        words.append(" ");
        let percent: String = percent_text(frequencies[i].1);
        words.append(percent.as_str());
        words.append("%");
        proof {
            let one = frequencies@[i as int].0@ + " "@ + percent_words(frequencies@[i as int].1) + "%"@;
            if i == 0 {
                assert(words@ =~= one);
            } else {
                assert(words@ =~= before + "  "@ + one);
            }
        }
        i = i + 1;
    }
    words
}

impl Account {
    /// Whether this is the account of a decision that was told of.
    pub open spec fn tells_of(self, told: Told) -> bool {
        &&& self.hole@ == told.hole@
        &&& self.street == told.street
        &&& self.board@ == told.board@
        &&& self.pot == told.pot
        &&& self.to_call == told.to_call
        &&& match (told.source, self.origin) {
            (Source::Solve { spot, .. }, Origin::Solve { spot: name }) => name@ == spot@,
            (Source::Fallback { reason }, Origin::Fallback { reason: why }) => why@ == reason.words(),
            _ => false,
        }
        &&& self.frequencies@.len() == told.frequencies@.len()
        &&& forall|i: int|
            0 <= i < told.frequencies@.len() ==> (#[trigger] self.frequencies@[i]).0@ == told.frequencies@[i].0@
                && self.frequencies@[i].1 == told.frequencies@[i].1
        &&& self.action == told.action
    }

    /// The account of a decision that was told of.
    pub fn of(told: &Told) -> (account: Account)
        ensures
            account.tells_of(*told),
    {
        let mut frequencies: Vec<(String, u32)> = Vec::new();
        let mut i: usize = 0;
        while i < told.frequencies.len()
            invariant
                i <= told.frequencies@.len(),
                frequencies@.len() == i,
                forall|k: int|
                    0 <= k < i ==> (#[trigger] frequencies@[k]).0@ == told.frequencies@[k].0@ && frequencies@[k].1
                        == told.frequencies@[k].1,
            decreases told.frequencies@.len() - i,
        {
            frequencies.push((String::from_str(told.frequencies[i].0.as_str()), told.frequencies[i].1));
            i = i + 1;
        }
        Account {
            hole: told.hole,
            street: told.street,
            board: vstd::slice::slice_to_vec(told.board.as_slice()),
            pot: told.pot,
            to_call: told.to_call,
            origin: Origin::of(&told.source),
            frequencies,
            action: told.action,
        }
    }

    /// The lines for the decision: the spot, where the decision came from, what
    /// was considered, and what was done.
    pub open spec fn words(self) -> Seq<char> {
        "  "@ + text::set_left(self.street.words(), 8) + " board "@ + text::set_left(
            if self.board@.len() == 0 {
                "-"@
            } else {
                card::cards_text(self.board@)
            },
            14,
        ) + " pot "@ + text::set_right(in_tenths(self.pot as int), 6) + "  to call "@ + text::set_right(
            in_tenths(self.to_call as int),
            5,
        ) + "\n           "@ + self.origin.words() + "\n           "@ + frequency_words(
            self.frequencies@,
            self.frequencies@.len() as int,
        ) + "\n           => "@ + self.action.words() + "\n"@
    }

    /// The lines for the decision.
    pub fn to_string(&self) -> (words: String)
        ensures
            words@ == self.words(),
    {
        let mut words: String = String::from_str("  ");
        let street: String = self.street.to_string();
        let street: String = text::on_the_left(street.as_str(), 8);
        words.append(street.as_str());
        words.append(" board ");
        let board: String = if self.board.len() == 0 {
            String::from_str("-")
        } else {
            card::show(self.board.as_slice())
        };
        let board: String = text::on_the_left(board.as_str(), 14);
        words.append(board.as_str());
        words.append(" pot ");
        let pot: String = tenths_text(self.pot);
        let pot: String = text::on_the_right(pot.as_str(), 6);
        words.append(pot.as_str());
        words.append("  to call ");
        let to_call: String = tenths_text(self.to_call);
        let to_call: String = text::on_the_right(to_call.as_str(), 5);
        words.append(to_call.as_str());
        words.append("\n           ");
        let origin: String = self.origin.explain();
        words.append(origin.as_str());
        words.append("\n           ");
        let frequencies: String = frequency_text(&self.frequencies);
        words.append(frequencies.as_str());
        words.append("\n           => ");
        let action: String = self.action.to_string();
        words.append(action.as_str());
        words.append("\n");
        words
    }
}

/// The line that opens a hand.
pub open spec fn hand_words(number: int, hole: Seq<Card>) -> Seq<char> {
    "\nHAND "@ + text::digits(number) + "  "@ + card::cards_text(hole) + "\n"@
}

/// The line that closes a hand: what it came to in big blinds, with its sign.
pub open spec fn result_words(net: int) -> Seq<char> {
    let size = if net < 0 {
        -net
    } else {
        net
    };
    "  result   "@ + (if net < 0 {
        "-"@
    } else {
        "+"@
    }) + text::digits(size / 100) + "."@ + text::zero_padded(size % 100, 2) + " bb\n"@
}

/// A hand history to read: one block for each hand, every decision in it, and
/// what it came to. It counts hands, decisions, and how many of them a solve
/// made.
#[derive(Debug, Clone, PartialEq, Eq)]
pub struct Review {
    /// The hand being written, recognised by the hero's cards.
    pub hole: Vec<Card>,
    pub hands: u64,
    pub decisions: u64,
    pub solved: u64,
}

impl Review {
    /// Whether no more was solved than was decided.
    pub open spec fn sound(self) -> bool {
        self.solved <= self.decisions && self.hands <= self.decisions
    }

    /// Nothing written.
    pub fn new() -> (review: Review)
        ensures
            review.sound(),
            review.hole@.len() == 0,
            review.hands == 0,
            review.decisions == 0,
            review.solved == 0,
    {
        Review { hole: Vec::new(), hands: 0, decisions: 0, solved: 0 }
    }

    /// Counts a decision, and gives what to write of it: its lines, and before
    /// them the line that opens a hand where the hero's cards are new.
    pub fn on_decision(&mut self, account: &Account) -> (words: String)
        requires
            old(self).sound(),
            old(self).decisions < u64::MAX,
        ensures
            final(self).sound(),
            final(self).hole@ == account.hole@,
            final(self).hands == old(self).hands + (if old(self).hole@ != account.hole@ {
                1int
            } else {
                0
            }),
            final(self).decisions == old(self).decisions + 1,
            final(self).solved == old(self).solved + (if account.origin is Solve {
                1int
            } else {
                0
            }),
            words@ == (if old(self).hole@ != account.hole@ {
                hand_words(old(self).hands + 1, account.hole@) + account.words()
            } else {
                account.words()
            }),
    {
        let same: bool = self.hole.len() == 2 && self.hole[0] == account.hole[0] && self.hole[1] == account.hole[1];
        assert(same <==> self.hole@ =~= account.hole@);
        let mut words: String = String::new();
        if !same {
            let mut cards: Vec<Card> = Vec::new();
            cards.push(account.hole[0]);
            cards.push(account.hole[1]);
            assert(cards@ =~= account.hole@);
            let hole: String = card::show(cards.as_slice());
            self.hole = cards;
            self.hands = self.hands + 1;
            words.append("\nHAND ");
            let number: String = text::decimal(self.hands);
            words.append(number.as_str());
            words.append("  ");
            words.append(hole.as_str());
            words.append("\n");
            assert(words@ =~= hand_words(self.hands as int, account.hole@));
        }
        self.decisions = self.decisions + 1;
        match &account.origin {
            Origin::Solve { .. } => {
                self.solved = self.solved + 1;
            },
            Origin::Fallback { .. } => {},
        }
        let lines: String = account.to_string();
        let ghost before = words@;
        words.append(lines.as_str());
        proof {
            if same {
                assert(words@ =~= account.words());
            } else {
                assert(words@ =~= before + account.words());
            }
        }
        words
    }

    /// What to write when a hand comes to so many chips: nothing before the
    /// first hand.
    pub fn note_result(&self, net: i128) -> (line: Option<String>)
        requires
            -u64::MAX <= net <= u64::MAX,
        ensures
            line is Some <==> self.hands > 0,
            line matches Some(line) ==> line@ == result_words(net as int),
    {
        if self.hands == 0 {
            return None;
        }
        let mut line: String = String::from_str("  result   ");
        let size: u64 = if net < 0 {
            line.append("-");
            (-net) as u64
        } else {
            line.append("+");
            net as u64
        };
        let whole: String = text::decimal(size / 100);
        line.append(whole.as_str());
        line.append(".");
        let rest: String = text::padded(size % 100, 2);
        line.append(rest.as_str());
        line.append(" bb\n");
        Some(line)
    }

    /// How many decisions a solve made, and how many there were.
    pub fn coverage(&self) -> (coverage: (u64, u64))
        ensures
            coverage == (self.solved, self.decisions),
    {
        (self.solved, self.decisions)
    }

    /// How many hands were written.
    pub fn hands(&self) -> (hands: u64)
        ensures
            hands == self.hands,
    {
        self.hands
    }

    /// Hands written, decisions taken, and how many a solve made.
    pub fn tally(&self) -> (tally: (u64, u64, u64))
        ensures
            tally == (self.hands, self.decisions, self.solved),
    {
        (self.hands, self.decisions, self.solved)
    }
}

/// How much a session may touch the table.
#[derive(Debug, Clone, Copy, PartialEq, Eq, Structural)]
pub enum Acting {
    /// Watch only.
    Never,
    /// Give up every hand that is not free, whatever was decided.
    FoldOnly,
    /// Carry out what was decided.
    Play,
}

impl Acting {
    /// The mode of that name.
    pub fn parse(name: &str) -> (acting: Option<Acting>)
        ensures
            acting == (if name@ == "off"@ {
                Some(Acting::Never)
            } else if name@ == "fold"@ {
                Some(Acting::FoldOnly)
            } else if name@ == "play"@ {
                Some(Acting::Play)
            } else {
                None
            }),
    {
        if text::same(name, "off") {
            Some(Acting::Never)
        } else if text::same(name, "fold") {
            Some(Acting::FoldOnly)
        } else if text::same(name, "play") {
            Some(Acting::Play)
        } else {
            None
        }
    }
}

/// What to press for an action. A check and a call are the same button.
pub fn choice_of(action: Action) -> (choice: Choice)
    ensures
        choice == (match action {
            Action::Fold => Choice::Fold,
            Action::Check => Choice::Passive,
            Action::Call => Choice::Passive,
            Action::RaiseTo(to) => Choice::Aggressive { to },
        }),
{
    match action {
        Action::Fold => Choice::Fold,
        Action::Check => Choice::Passive,
        Action::Call => Choice::Passive,
        Action::RaiseTo(to) => Choice::Aggressive { to },
    }
}

/// What one look at the table has shown.
#[derive(Debug, Clone, Copy, PartialEq, Eq)]
pub struct Look {
    /// Whether there is a reading at all.
    pub seen: bool,
    /// Why it must not be acted on, if it must not.
    pub held: Option<Held>,
    /// Whether the client is asking the hero to act.
    pub to_act: bool,
    /// What the hero owes, if it read.
    pub to_call: Option<u64>,
    /// What was decided, if anything was.
    pub decided: Option<Choice>,
}

/// What a session does next.
#[derive(Debug, Clone, Copy, PartialEq, Eq)]
pub enum Step {
    /// Look again.
    Wait,
    /// Carry out a choice.
    Act(Choice),
    /// Carry out a choice on a reading that never settled.
    Force(Choice),
    /// Press the button that sits the hero back in.
    SitIn,
    /// Stop the session.
    Stop(Held),
}

/// The choice that a mode allows on a trusted reading.
pub open spec fn allowed(acting: Acting, look: Look) -> Option<Choice> {
    match acting {
        Acting::Never => None,
        Acting::FoldOnly => Some(
            if look.to_call == Some(0u64) {
                Choice::Passive
            } else {
                Choice::Fold
            },
        ),
        Acting::Play => look.decided,
    }
}

/// Whether the client has waited too long for a reading to come good.
pub open spec fn is_overdue(acting: Acting, look: Look, since: Option<u64>, now: u64) -> bool {
    &&& acting != Acting::Never
    &&& look.to_act
    &&& now - (match since {
        Some(since) => since,
        None => now,
    }) >= DEADLINE
}

/// What a session does with a look: acts on one that is trusted; on one that
/// is not takes the safest way out once the clock has run down; sits back in;
/// or stops.
pub open spec fn step(acting: Acting, look: Look, since: Option<u64>, now: u64) -> Step {
    match look.held {
        None => match allowed(acting, look) {
            Some(choice) => if look.seen {
                Step::Act(choice)
            } else {
                Step::Wait
            },
            None => Step::Wait,
        },
        Some(held) => if look.seen && is_overdue(acting, look, since, now) {
            Step::Force(
                if look.to_call == Some(0u64) {
                    Choice::Passive
                } else {
                    Choice::Fold
                },
            )
        } else if held is SatOut && acting != Acting::Never {
            Step::SitIn
        } else if held is KillSwitch || held is StopLoss {
            Step::Stop(held)
        } else {
            Step::Wait
        },
    }
}

/// Since when the client has been asking, after a look: nothing once a turn
/// has been taken.
pub open spec fn asking(acting: Acting, look: Look, since: Option<u64>, now: u64) -> Option<u64> {
    if !look.seen || !look.to_act || look.held is None || step(acting, look, since, now) is Force {
        None
    } else {
        Some(
            match since {
                Some(since) => since,
                None => now,
            },
        )
    }
}

/// What a session does with a look, and since when the client is then asking.
/// `since` and `now` are in milliseconds.
pub fn next_step(acting: Acting, look: &Look, since: Option<u64>, now: u64) -> (next: (
    Step,
    Option<u64>,
))
    requires
        since matches Some(since) ==> since <= now,
    ensures
        next.0 == step(acting, *look, since, now),
        next.1 == asking(acting, *look, since, now),
{
    let began: u64 = match since {
        Some(since) => since,
        None => now,
    };
    let held: Held = match look.held {
        Some(held) => held,
        None => {
            let choice: Option<Choice> = match acting {
                Acting::Never => None,
                Acting::FoldOnly => Some(last_resort(look.to_call)),
                Acting::Play => look.decided,
            };
            return match choice {
                Some(choice) if look.seen => (Step::Act(choice), None),
                _ => (Step::Wait, None),
            };
        },
    };
    let running: Option<u64> = if look.seen && look.to_act {
        Some(began)
    } else {
        None
    };
    let may_touch: bool = match acting {
        Acting::Never => false,
        _ => true,
    };
    if look.seen && may_touch && look.to_act && now - began >= DEADLINE {
        return (Step::Force(last_resort(look.to_call)), None);
    }
    match held {
        Held::SatOut if may_touch => (Step::SitIn, running),
        Held::KillSwitch => (Step::Stop(held), running),
        Held::StopLoss => (Step::Stop(held), running),
        _ => (Step::Wait, running),
    }
}

/// A session that only watches never touches the table.
pub proof fn law_watching_touches_nothing(look: Look, since: Option<u64>, now: u64)
    ensures
        step(Acting::Never, look, since, now) is Wait || step(Acting::Never, look, since, now)
            is Stop,
{
}

/// A session that only folds never pays: it checks where that is free and
/// gives the hand up everywhere else.
pub proof fn law_folding_never_pays(look: Look, since: Option<u64>, now: u64)
    ensures
        match step(Acting::FoldOnly, look, since, now) {
            Step::Act(choice) => choice == Choice::Fold || (choice == Choice::Passive
                && look.to_call == Some(0u64)),
            Step::Force(choice) => choice == Choice::Fold || (choice == Choice::Passive
                && look.to_call == Some(0u64)),
            _ => true,
        },
{
}

/// Nobody is timed out: while the client goes on asking, a session that may
/// touch the table takes the turn within the deadline, whatever it reads.
pub proof fn law_a_turn_is_taken_in_time(acting: Acting, look: Look, since: u64, now: u64)
    requires
        acting == Acting::FoldOnly || (acting == Acting::Play && look.decided is Some),
        look.seen,
        look.to_act,
        now - since >= DEADLINE,
    ensures
        step(acting, look, Some(since), now) is Act || step(acting, look, Some(since), now)
            is Force,
{
}

/// A breach stops a session, but for a turn that is already out of time and is
/// given up first.
pub proof fn law_a_breach_stops_the_session(
    acting: Acting,
    look: Look,
    since: Option<u64>,
    now: u64,
)
    requires
        look.held == Some(Held::KillSwitch) || look.held == Some(Held::StopLoss),
        !(look.seen && is_overdue(acting, look, since, now)),
    ensures
        step(acting, look, since, now) == Step::Stop(look.held->0),
{
}

/// An amount in big blinds where it read, and a mark where it did not.
pub open spec fn amount_or(amount: Option<u64>, mark: Seq<char>) -> Seq<char> {
    match amount {
        Some(chips) => in_blinds(chips as int),
        None => mark,
    }
}

/// A seat in a word: a star for the hero, whether it holds cards, its stack and
/// its bet.
pub open spec fn seat_words(seat: SeatReading) -> Seq<char> {
    (if seat.hero {
        "*"@
    } else {
        ""@
    }) + (if seat.in_hand {
        "c"@
    } else {
        "-"@
    }) + amount_or(seat.stack, "?"@) + "/"@ + amount_or(seat.bet, "-"@)
}

/// Seats in a row.
pub open spec fn seats_words(seats: Seq<SeatReading>, count: int) -> Seq<char>
    decreases count,
{
    if count <= 0 {
        Seq::empty()
    } else if count == 1 {
        seat_words(seats[0])
    } else {
        seats_words(seats, count - 1) + " "@ + seat_words(seats[count - 1])
    }
}

/// Appends an amount in big blinds where it read, and a mark where it did not.
fn append_amount(words: &mut String, amount: Option<u64>, mark: &str)
    ensures
        final(words)@ == old(words)@ + amount_or(amount, mark@),
{
    match amount {
        Some(chips) => {
            let amount: String = blinds_text(chips);
            words.append(amount.as_str());
        },
        None => {
            words.append(mark);
        },
    }
}

/// Appends a number in decimal.
fn append_number(words: &mut String, number: usize)
    ensures
        final(words)@ == old(words)@ + text::digits(number as int),
{
    let digits: String = text::decimal(number as u64);
    words.append(digits.as_str());
}

/// Seats in a row.
fn seats_text(seats: &Vec<SeatReading>) -> (words: String)
    ensures
        words@ == seats_words(seats@, seats@.len() as int),
{
    let mut words: String = String::new();
    let mut i: usize = 0;
    assert(words@ =~= Seq::empty());
    while i < seats.len()
        invariant
            i <= seats@.len(),
            words@ == seats_words(seats@, i as int),
        decreases seats@.len() - i,
    {
        let seat: SeatReading = seats[i];
        let ghost before = words@;
        if i > 0 {
            words.append(" ");
        }
        words.append(
            if seat.hero {
                "*"
            } else {
                ""
            },
        );
        words.append(
            if seat.in_hand {
                "c"
            } else {
                "-"
            },
        );
        append_amount(&mut words, seat.stack, "?");
        words.append("/");
        append_amount(&mut words, seat.bet, "-");
        proof {
            if i == 0 {
                assert(words@ =~= seat_words(seat));
            } else {
                assert(words@ =~= before + " "@ + seat_words(seat));
            }
        }
        i = i + 1;
    }
    words
}

/// What a recorded session says of one reading.
#[derive(Debug, Clone, Copy, PartialEq, Eq, Structural)]
pub struct Notes {
    /// Whether the client shows any buttons.
    pub asking: bool,
    /// How many figures were refused.
    pub refusals: usize,
    /// How many seats are taken.
    pub occupied: usize,
}

/// The line that a recorded session keeps of a reading.
pub open spec fn record_words(
    frame: int,
    reading: Option<Reading>,
    notes: Notes,
    held: Option<Held>,
) -> Seq<char> {
    let number = text::zero_padded(frame, 5);
    match reading {
        None => number + " -- no reading -- "@ + (match held {
            Some(held) => held.words(),
            None => ""@,
        }) + "\n"@,
        Some(reading) => number + " pot "@ + amount_or(reading.pot, "?"@) + " coll "@ + amount_or(
            reading.collected,
            "-"@,
        ) + " board ["@ + card::cards_text(reading.board@) + "] hole ["@ + card::cards_text(
            reading.hole@,
        ) + "] button "@ + (match reading.button {
            Some(button) => text::digits(button as int),
            None => "?"@,
        }) + " act "@ + (if notes.asking {
            "yes"@
        } else {
            "no"@
        }) + " refused "@ + text::digits(notes.refusals as int) + " live "@ + text::digits(
            reading.active as int,
        ) + "/"@ + text::digits(notes.occupied as int) + " | "@ + seats_words(
            reading.seats@,
            reading.seats@.len() as int,
        ) + " | "@ + (match held {
            Some(held) => held.words(),
            None => "ACTIONABLE"@,
        }) + "\n"@,
    }
}

/// The line that a recorded session keeps of a reading, numbered by its frame:
/// what was read, and why nothing was done with it or that something could be.
pub fn record_line(frame: u64, reading: Option<&Reading>, notes: &Notes, held: Option<Held>) -> (line:
    String)
    ensures
        line@ == record_words(
            frame as int,
            match reading {
                Some(reading) => Some(*reading),
                None => None,
            },
            *notes,
            held,
        ),
{
    let mut line: String = text::padded(frame, 5);
    match reading {
        None => {
            line.append(" -- no reading -- ");
            match held {
                Some(held) => {
                    let reason: String = held.explain();
                    line.append(reason.as_str());
                },
                None => {
                    line.append("");
                },
            }
            line.append("\n");
        },
        Some(reading) => {
            line.append(" pot ");
            append_amount(&mut line, reading.pot, "?");
            line.append(" coll ");
            append_amount(&mut line, reading.collected, "-");
            line.append(" board [");
            let board: String = card::show(reading.board.as_slice());
            line.append(board.as_str());
            line.append("] hole [");
            let hole: String = card::show(reading.hole.as_slice());
            line.append(hole.as_str());
            line.append("] button ");
            match reading.button {
                Some(button) => {
                    append_number(&mut line, button);
                },
                None => {
                    line.append("?");
                },
            }
            line.append(" act ");
            line.append(
                if notes.asking {
                    "yes"
                } else {
                    "no"
                },
            );
            line.append(" refused ");
            append_number(&mut line, notes.refusals);
            line.append(" live ");
            append_number(&mut line, reading.active);
            line.append("/");
            append_number(&mut line, notes.occupied);
            line.append(" | ");
            let seats: String = seats_text(&reading.seats);
            line.append(seats.as_str());
            line.append(" | ");
            match held {
                Some(held) => {
                    let reason: String = held.explain();
                    line.append(reason.as_str());
                },
                None => {
                    line.append("ACTIONABLE");
                },
            }
            line.append("\n");
        },
    }
    line
}

/// The name of the picture beside a line.
pub fn frame_name(frame: u64) -> (name: String)
    ensures
        name@ == "frame-"@ + text::zero_padded(frame as int, 5) + ".png"@,
{
    let mut name: String = String::from_str("frame-");
    let number: String = text::padded(frame, 5);
    name.append(number.as_str());
    name.append(".png");
    name
}

/// The name of a picture of the hero's turn. It says what the reading claims,
/// so that the file itself says what to check.
pub fn turn_name(turn: u64, active: usize, occupied: usize) -> (name: String)
    ensures
        name@ == "turn-"@ + text::zero_padded(turn as int, 4) + "-"@ + text::digits(active as int)
            + "of"@ + text::digits(occupied as int) + ".png"@,
{
    let mut name: String = String::from_str("turn-");
    let number: String = text::padded(turn, 4);
    name.append(number.as_str());
    name.append("-");
    append_number(&mut name, active);
    name.append("of");
    append_number(&mut name, occupied);
    name.append(".png");
    name
}

/// The name of a picture whose hole cards could not be read.
pub fn unread_name(kept: u64, actions: usize) -> (name: String)
    ensures
        name@ == "unread-"@ + text::zero_padded(kept as int, 4) + "-"@ + text::digits(
            actions as int,
        ) + ".rgb"@,
{
    let mut name: String = String::from_str("unread-");
    let number: String = text::padded(kept, 4);
    name.append(number.as_str());
    name.append("-");
    append_number(&mut name, actions);
    name.append(".rgb");
    name
}

/// What one look at the window has shown.
#[derive(Debug, Clone, Copy, PartialEq, Eq)]
pub struct Sight {
    /// Whether there was a picture to read.
    pub pictured: bool,
    /// Whether the picture was kept because it could not be read.
    pub kept: bool,
    /// Whether the reading agrees with the one before it.
    pub settled: bool,
    /// Whether the client shows that it has sat the hero out.
    pub sat_out: bool,
    /// Whether the file that stops everything is there.
    pub stopped: bool,
    /// The hero's stack, where it read.
    pub stack: Option<u64>,
    /// Whether the client is asking the hero to act.
    pub to_act: bool,
    /// The figure that did not read.
    pub missing: Option<&'static str>,
    /// Whether the money adds up.
    pub consistent: bool,
}

/// What a session remembers.
#[derive(Debug, Clone, Copy, PartialEq, Eq)]
pub struct Session {
    pub safety: Safety,
    /// The first stack that was read.
    pub started_with: Option<u64>,
    /// Actions that were pressed.
    pub actions: usize,
    /// Pictures kept because they could not be read.
    pub kept: usize,
    /// Raises given up because their size would not go in.
    pub retreats: usize,
    /// What stopped the last of them.
    pub last_retreat: Option<Held>,
    /// Pictures kept of the hero's turns.
    pub turns: usize,
    /// Readings recorded.
    pub frames: usize,
    /// Pictures recorded beside them.
    pub pictured: usize,
}

impl Session {
    /// The stack that losses are counted from, after a look.
    pub open spec fn start_after(self, sight: Sight) -> Option<u64> {
        if sight.pictured && sight.settled && self.started_with is None {
            sight.stack
        } else {
            self.started_with
        }
    }

    /// Everything that is known of a look.
    pub open spec fn findings(self, sight: Sight) -> Findings {
        Findings {
            pictured: sight.pictured,
            settled: sight.settled,
            sat_out: sight.sat_out,
            breach: self.safety.breach(
                sight.stopped,
                self.start_after(sight),
                sight.stack,
                self.actions,
            ),
            to_act: sight.to_act,
            missing: sight.missing,
            consistent: sight.consistent,
        }
    }

    /// A session that has not begun.
    pub fn new(safety: Safety) -> (session: Session)
        ensures
            session == (Session {
                safety,
                started_with: None,
                actions: 0,
                kept: 0,
                retreats: 0,
                last_retreat: None,
                turns: 0,
                frames: 0,
                pictured: 0,
            }),
    {
        Session {
            safety,
            started_with: None,
            actions: 0,
            kept: 0,
            retreats: 0,
            last_retreat: None,
            turns: 0,
            frames: 0,
            pictured: 0,
        }
    }

    /// Judges a look: why nothing may be done with it, if so. The first stack
    /// that is read off a settled table is what losses are counted from.
    pub fn assess(&mut self, sight: &Sight) -> (held: Option<Held>)
        requires
            old(self).kept < usize::MAX,
        ensures
            held == objection(old(self).findings(*sight)),
            *final(self) == (Session {
                kept: if sight.pictured && sight.kept {
                    (old(self).kept + 1) as usize
                } else {
                    old(self).kept
                },
                started_with: old(self).start_after(*sight),
                ..*old(self)
            }),
    {
        if sight.pictured && sight.kept {
            self.kept = self.kept + 1;
        }
        if sight.pictured && sight.settled && self.started_with.is_none() {
            self.started_with = sight.stack;
        }
        let breach: Option<Held> = self.safety.breached(
            sight.stopped,
            self.started_with,
            sight.stack,
            self.actions,
        );
        assess(
            &Findings {
                pictured: sight.pictured,
                settled: sight.settled,
                sat_out: sight.sat_out,
                breach,
                to_act: sight.to_act,
                missing: sight.missing,
                consistent: sight.consistent,
            },
        )
    }

    /// What is to be pressed for a choice, the size of a raise having gone into
    /// its field or not. A raise whose size will not go in is given up for a
    /// call, which puts in strictly less.
    pub fn carry_out(&mut self, choice: Choice, sized: Result<(), Held>) -> (pressed: Choice)
        requires
            old(self).retreats < usize::MAX,
        ensures
            pressed == (if choice is Aggressive && sized is Err {
                Choice::Passive
            } else {
                choice
            }),
            *final(self) == (if choice is Aggressive && sized is Err {
                Session {
                    retreats: (old(self).retreats + 1) as usize,
                    last_retreat: Some(sized->Err_0),
                    ..*old(self)
                }
            } else {
                *old(self)
            }),
    {
        match (choice, sized) {
            (Choice::Aggressive { .. }, Err(why)) => {
                self.retreats = self.retreats + 1;
                self.last_retreat = Some(why);
                Choice::Passive
            },
            _ => choice,
        }
    }

    /// Counts an action that was pressed.
    pub fn note_action(&mut self)
        requires
            old(self).actions < usize::MAX,
        ensures
            *final(self) == (Session { actions: (old(self).actions + 1) as usize, ..*old(self) }),
    {
        self.actions = self.actions + 1;
    }

    /// Counts a recorded reading, and says whether its picture is kept too:
    /// pictures stop after a while, since they are far larger than lines.
    pub fn note_frame(&mut self) -> (keep: bool)
        requires
            old(self).frames < usize::MAX,
        ensures
            keep == (old(self).pictured < FRAMES),
            *final(self) == (Session { frames: (old(self).frames + 1) as usize, ..*old(self) }),
    {
        self.frames = self.frames + 1;
        self.pictured < FRAMES
    }

    /// Counts a picture that was kept beside a recorded reading.
    pub fn note_picture(&mut self)
        requires
            old(self).pictured < usize::MAX,
        ensures
            *final(self) == (Session { pictured: (old(self).pictured + 1) as usize, ..*old(self) }),
    {
        self.pictured = self.pictured + 1;
    }

    /// Counts a picture that was kept of the hero's turn.
    pub fn note_turn(&mut self)
        requires
            old(self).turns < usize::MAX,
        ensures
            *final(self) == (Session { turns: (old(self).turns + 1) as usize, ..*old(self) }),
    {
        self.turns = self.turns + 1;
    }

    /// Pictures kept because they could not be read.
    pub fn frames_kept(&self) -> (kept: usize)
        ensures
            kept == self.kept,
    {
        self.kept
    }

    /// Actions that were pressed.
    pub fn actions_taken(&self) -> (actions: usize)
        ensures
            actions == self.actions,
    {
        self.actions
    }

    /// Raises given up because their size would not go in, and what stopped the
    /// last of them.
    pub fn retreats(&self) -> (retreats: (usize, Option<Held>))
        ensures
            retreats == (self.retreats, self.last_retreat),
    {
        (self.retreats, self.last_retreat)
    }

    /// Readings recorded, and pictures recorded beside them.
    pub fn recorded(&self) -> (recorded: (usize, usize))
        ensures
            recorded == (self.frames, self.pictured),
    {
        (self.frames, self.pictured)
    }

    /// Pictures kept of the hero's turns.
    pub fn turns_kept(&self) -> (turns: usize)
        ensures
            turns == self.turns,
    {
        self.turns
    }
}

/// Which button a choice needs, of those that are on screen.
pub fn button_for(
    choice: Choice,
    fold: Option<(usize, usize)>,
    passive: Option<(usize, usize)>,
    aggressive: Option<(usize, usize)>,
) -> (button: Result<(usize, usize), Held>)
    ensures
        button == (match (match choice {
            Choice::Fold => fold,
            Choice::Passive => passive,
            Choice::Aggressive { .. } => aggressive,
        }) {
            Some(place) => Ok::<(usize, usize), Held>(place),
            None => Err::<(usize, usize), Held>(Held::NoSuchButton(choice)),
        }),
{
    let place: Option<(usize, usize)> = match choice {
        Choice::Fold => fold,
        Choice::Passive => passive,
        Choice::Aggressive { .. } => aggressive,
    };
    match place {
        Some(place) => Ok(place),
        None => Err(Held::NoSuchButton(choice)),
    }
}

/// A session never forgets where it started: once a stack has been read,
/// losses are counted from that stack for good.
pub proof fn law_losses_are_counted_from_the_start(session: Session, sight: Sight)
    requires
        session.started_with is Some,
    ensures
        session.start_after(sight) == session.started_with,
{
}

/// A session that does moderate amounts stops when it has lost its limit and a
/// chip more, and not while it is a chip or more short of it; the file that
/// stops it and the count of actions stop it whatever it has lost.
pub proof fn law_a_session_stops_at_its_limit(
    safety: Safety,
    started: u64,
    now: u64,
    actions: usize,
    limit: u64,
)
    requires
        0 < limit < 0x40_0000_0000,
        safety.stop_loss_bb == double::quotient(limit as int, 1),
        started < 0x4000_0000_0000,
        now < 0x4000_0000_0000,
    ensures
        safety.breach(true, Some(started), Some(now), actions) == Some(Held::KillSwitch),
        actions >= safety.max_actions ==> safety.breach(false, Some(started), Some(now), actions) == Some(Held::StopLoss),
        started - now > 100 * limit ==> safety.breach(false, Some(started), Some(now), actions) == Some(Held::StopLoss),
        actions < safety.max_actions && started - now < 100 * limit ==> safety.breach(
            false,
            Some(started),
            Some(now),
            actions,
        ) is None,
        actions < safety.max_actions ==> safety.breach(false, None, Some(now), actions) is None && safety.breach(
            false,
            Some(started),
            None,
            actions,
        ) is None,
{
    let u = double::one();
    double::lemma_pow2(1074);
    let whole = limit as int;
    if now <= started {
        double::lemma_hundredths_distance(started as int, now as int);
        let gap = double::units(double::quotient(started as int, 100)) - double::units(double::quotient(now as int, 100));
        let lost = started - now;
        double::lemma_beside_whole(gap, whole);
        if lost > 100 * whole {
            assert(lost * u >= (100 * whole + 1) * u && (100 * whole + 1) * u == 100 * (whole * u) + u) by (nonlinear_arith)
                requires
                    lost >= 100 * whole + 1,
                    0 < u,
            ;
        } else if lost < 100 * whole {
            assert(lost * u <= (100 * whole - 1) * u && (100 * whole - 1) * u == 100 * (whole * u) - u && (200 * whole - 1)
                * u == 200 * (whole * u) - u) by (nonlinear_arith)
                requires
                    lost <= 100 * whole - 1,
                    0 < u,
            ;
        }
    } else {
        double::lemma_hundredths_distance(now as int, started as int);
        if double::quotient(started as int, 100) == double::quotient(now as int, 100) {
            let before = double::quotient(started as int, 100);
            double::lemma_quotient_grows(0, started as int, 100);
            double::lemma_distance_grows(before, before, before);
            double::lemma_beside_whole(0, whole);
            assert((200 * whole - 1) * u >= 0) by (nonlinear_arith)
                requires
                    200 * whole - 1 >= 0,
                    0 < u,
            ;
        }
    }
    double::lemma_quotient_grows(0, whole, 1);
}

/// A raise of a moderate size took where the field shows it to within four
/// chips, and did not where it is six or more away, or shows nothing.
pub proof fn law_a_raise_took_where_it_shows(wanted: u64, shown: u64)
    requires
        wanted < 0x4000_0000_0000,
        shown < 0x4000_0000_0000,
    ensures
        -4 <= shown - wanted <= 4 ==> is_close(shown as int, wanted as int),
        shown - wanted >= 6 || wanted - shown >= 6 ==> !is_close(shown as int, wanted as int),
{
    let u = double::one();
    double::lemma_pow2(1074);
    let (low, high) = if shown <= wanted {
        (shown as int, wanted as int)
    } else {
        (wanted as int, shown as int)
    };
    double::lemma_hundredths_distance(high, low);
    double::lemma_hundredths_distance(5, 0);
    let gap = double::units(double::quotient(high, 100)) - double::units(double::quotient(low, 100));
    double::lemma_hundredths(0);
    double::lemma_hundredths(5);
    double::lemma_near_five(gap);
    let apart = high - low;
    if apart <= 4 {
        assert(apart * u <= 4 * u) by (nonlinear_arith)
            requires
                apart <= 4,
                0 < u,
        ;
    } else if apart >= 6 {
        assert(apart * u >= 6 * u) by (nonlinear_arith)
            requires
                apart >= 6,
                0 < u,
        ;
    }
}

/// Which doubt a picture is refused for. Having been sat out is one wherever the
/// picture cannot be used or nothing is asked; the limits come before the turn,
/// the turn before the figures, and the figures before whether they add up.
pub proof fn law_the_first_doubt_is_named(found: Findings)
    requires
        found.breach is None || found.breach == Some(Held::KillSwitch) || found.breach == Some(Held::StopLoss),
    ensures
        ({
            let held = objection(found);
            let still = found.pictured && found.settled;
            let running = still && found.breach is None;
            let asked = running && found.to_act;
            &&& held == Some(Held::SatOut) <==> found.sat_out && (!still || (running && !found.to_act))
            &&& held == Some(Held::NoPicture) <==> !found.pictured && !found.sat_out
            &&& held == Some(Held::NotSettled) <==> found.pictured && !found.settled && !found.sat_out
            &&& held == Some(Held::KillSwitch) <==> still && found.breach == Some(Held::KillSwitch)
            &&& held == Some(Held::StopLoss) <==> still && found.breach == Some(Held::StopLoss)
            &&& held == Some(Held::NotOurTurn) <==> running && !found.to_act && !found.sat_out
            &&& (exists|what: &'static str| held == Some(Held::NotConfident(what)) && found.missing == Some(what))
                <==> asked && found.missing is Some
            &&& held == Some(Held::NotAdding) <==> asked && found.missing is None && !found.consistent
        }),
{
    let held = objection(found);
    if found.pictured && found.settled && found.breach is None && found.to_act && found.missing is Some {
        let what = found.missing->Some_0;
        assert(held == Some(Held::NotConfident(what)) && found.missing == Some(what));
    }
}

/// What a session does, for each step exactly when. It acts on a trusted look
/// only, folds or checks in its place once the client has asked for six
/// seconds, sits back in unless it only watches, and stops for a limit.
pub proof fn law_what_a_session_does(acting: Acting, look: Look, since: Option<u64>, now: u64)
    ensures
        ({
            let done = step(acting, look, since, now);
            let free = look.to_call == Some(0u64);
            let waited = match since {
                Some(since) => now - since,
                None => 0,
            };
            let late = look.seen && look.held is Some && acting != Acting::Never && look.to_act && waited >= 6_000;
            let limited = look.held == Some(Held::KillSwitch) || look.held == Some(Held::StopLoss);
            &&& done == Step::Act(Choice::Fold) <==> look.seen && look.held is None && (acting == Acting::FoldOnly && !free
                || acting == Acting::Play && look.decided == Some(Choice::Fold))
            &&& done == Step::Act(Choice::Passive) <==> look.seen && look.held is None && (acting == Acting::FoldOnly
                && free || acting == Acting::Play && look.decided == Some(Choice::Passive))
            &&& done is Act ==> look.seen && look.held is None && acting != Acting::Never && (acting == Acting::Play
                ==> look.decided == Some(done->Act_0))
            &&& look.seen && look.held is None && acting == Acting::Play && look.decided is Some ==> done == Step::Act(
                look.decided->Some_0,
            )
            &&& done == Step::Force(
                if free {
                    Choice::Passive
                } else {
                    Choice::Fold
                },
            ) <==> late
            &&& done is Force <==> late
            &&& done == Step::SitIn <==> !late && look.held == Some(Held::SatOut) && acting != Acting::Never
            &&& done is Stop <==> !late && limited
            &&& done is Stop ==> look.held == Some(done->Stop_0)
        }),
{
}

/// How long the client has been asking: from the first look at which it was,
/// through every look that cannot be acted on, and not at all once it is not, or
/// once a choice is made.
pub proof fn law_how_long_the_client_has_asked(acting: Acting, look: Look, since: Option<u64>, now: u64)
    ensures
        ({
            let after = asking(acting, look, since, now);
            let pending = look.seen && look.to_act && look.held is Some && !(step(acting, look, since, now) is Force);
            &&& !pending ==> after is None
            &&& pending && since is None ==> after == Some(now)
            &&& pending && since is Some ==> after == since
        }),
{
}

/// Losses are counted from the first stack that was read in a still picture.
pub proof fn law_the_first_stack_that_reads_is_the_start(session: Session, sight: Sight)
    requires
        session.started_with is None,
    ensures
        session.start_after(sight) == (if sight.pictured && sight.settled {
            sight.stack
        } else {
            None
        }),
{
}

/// A moderate amount is shown in tenths of a big blind, to the nearest.
pub proof fn law_shown_tenths_are_to_the_nearest(chips: int)
    requires
        0 <= chips < 0x4_0000_0000_0000,
    ensures
        exists|tenths: int| 0 <= tenths && -5 <= 10 * tenths - chips <= 5 && in_tenths(chips) == #[trigger] text::tenths(
            tenths,
        ),
{
    double::lemma_shown_tenths(chips);
    let tenths = double::in_parts(double::ratio(chips, 100), 10);
    assert(in_tenths(chips) == text::tenths(tenths));
}

/// What begins a hand: two hole cards with a stack beside them, where they are
/// not those of the hand before. The same cards begin nothing twice.
pub proof fn law_a_hand_begins_with_new_cards(ledger: Ledger, after: Ledger, hole: Seq<Card>, chips: u64, stack: Option<u64>)
    requires
        after.hole@ == hole,
    ensures
        !after.is_deal(hole, stack),
        !ledger.is_deal(hole, None),
        ledger.is_deal(hole, stack) ==> hole.len() == 2,
        hole.len() == 2 && ledger.hole@ != hole ==> ledger.is_deal(hole, Some(chips)),
{
}

/// How a result is said: in big blinds with two decimals, and with the sign of
/// the result. A loss reads as the win of as much does, but for the sign.
pub proof fn law_results_are_said_with_their_sign(net: int)
    requires
        0 <= net,
    ensures
        result_words(net) == "  result   "@ + "+"@ + text::hundredths(net) + " bb\n"@,
        net > 0 ==> result_words(-net) == "  result   "@ + "-"@ + text::hundredths(net) + " bb\n"@,
{
    lemma_two_digits(net % 100);
    let words = text::digits(net / 100) + "."@ + text::zero_padded(net % 100, 2);
    assert(net % 100 % 10 == net % 10);
    assert(words =~= text::hundredths(net));
    assert(result_words(net) =~= "  result   "@ + "+"@ + words + " bb\n"@);
    if net > 0 {
        assert(result_words(-net) =~= "  result   "@ + "-"@ + words + " bb\n"@);
    }
}

/// Two digits of a number below a hundred.
proof fn lemma_two_digits(value: int)
    requires
        0 <= value < 100,
    ensures
        text::zero_padded(value, 2) == text::digits(value / 10) + text::digits(value % 10),
{
    reveal_with_fuel(text::digits, 3);
    assert(text::zero_padded(value, 2) =~= text::digits(value / 10) + text::digits(value % 10));
}

/// What a line says of a seat: a star before the hero's, a letter where it holds
/// cards, then its stack and its bet, with a mark for what did not read.
pub proof fn law_seats_are_said_as_they_are(seat: SeatReading, other: SeatReading, seats: Seq<SeatReading>)
    ensures
        seat.hero ==> seat_words(seat) == "*"@ + seat_words((SeatReading { hero: false, ..seat })),
        !seat.hero && seat.in_hand ==> seat_words(seat) == "c"@ + seat_words((SeatReading { in_hand: false, ..seat })).skip(
            1,
        ),
        !seat.hero && !seat.in_hand && seat.stack is None && seat.bet is None ==> seat_words(seat) == "-?/-"@,
        !seat.hero && !seat.in_hand && seat.stack is Some && seat.bet is Some ==> seat_words(seat) == "-"@ + in_blinds(
            seat.stack->0 as int,
        ) + "/"@ + in_blinds(seat.bet->0 as int),
        seats_words(seq![seat], 1) == seat_words(seat),
        seats.len() > 0 ==> seats_words(seats.push(seat), seats.len() + 1int) == seats_words(
            seats,
            seats.len() as int,
        ) + " "@ + seat_words(seat),
{
    reveal_strlit("*");
    reveal_strlit("c");
    reveal_strlit("-");
    reveal_strlit("?");
    reveal_strlit("/");
    reveal_strlit("");
    reveal_strlit("-?/-");
    let plain = SeatReading { hero: false, ..seat };
    let gone = SeatReading { in_hand: false, ..seat };
    if seat.hero {
        assert(seat_words(seat) =~= "*"@ + seat_words(plain));
    }
    if !seat.hero && seat.in_hand {
        assert(seat_words(gone).skip(1) =~= amount_or(seat.stack, "?"@) + "/"@ + amount_or(seat.bet, "-"@));
        assert(seat_words(seat) =~= "c"@ + seat_words(gone).skip(1));
    }
    if !seat.hero && !seat.in_hand {
        if seat.stack is None && seat.bet is None {
            assert(seat_words(seat) =~= "-?/-"@);
        }
        if seat.stack is Some && seat.bet is Some {
            assert(seat_words(seat) =~= "-"@ + in_blinds(seat.stack->0 as int) + "/"@ + in_blinds(seat.bet->0 as int));
        }
    }
    if seats.len() > 0 {
        lemma_first_seats(seats, seat, seats.len() as int);
    }
}

/// A further seat changes nothing of what is said of the seats before it.
proof fn lemma_first_seats(seats: Seq<SeatReading>, seat: SeatReading, count: int)
    requires
        0 <= count <= seats.len(),
    ensures
        seats_words(seats.push(seat), count) == seats_words(seats, count),
    decreases count,
{
    if count > 0 {
        lemma_first_seats(seats, seat, count - 1);
        assert(seats.push(seat)[count - 1] == seats[count - 1]);
        assert(seats.push(seat)[0] == seats[0]);
    }
}

/// An account says of a decision what was told of it, and no two accounts of one
/// decision differ.
pub proof fn law_accounts_say_what_was_told(account: Account, other: Account, told: Told)
    requires
        account.tells_of(told),
        other.tells_of(told),
    ensures
        account.hole@ == told.hole@,
        account.street == told.street,
        account.board@ == told.board@,
        account.pot == told.pot,
        account.to_call == told.to_call,
        account.action == told.action,
        account.origin is Solve <==> told.source is Solve,
        account.frequencies@.len() == told.frequencies@.len(),
        forall|i: int|
            0 <= i < told.frequencies@.len() ==> (#[trigger] account.frequencies@[i]).0@ == told.frequencies@[i].0@
                && account.frequencies@[i].1 == told.frequencies@[i].1,
        match (account.origin, told.source) {
            (Origin::Solve { spot: name }, Source::Solve { spot, .. }) => name@ == spot@,
            (Origin::Fallback { reason: why }, Source::Fallback { reason }) => why@ == reason.words(),
            _ => false,
        },
        other.hole@ == account.hole@ && other.board@ == account.board@ && other.pot == account.pot,
{
}

/// What a look is held against: what was seen, and whether the session may go on
/// with the stack that it started with, the one seen now and the actions so far.
pub proof fn law_a_look_is_taken_as_it_is(session: Session, sight: Sight)
    ensures
        ({
            let found = session.findings(sight);
            &&& found.pictured == sight.pictured
            &&& found.settled == sight.settled
            &&& found.sat_out == sight.sat_out
            &&& found.to_act == sight.to_act
            &&& found.missing == sight.missing
            &&& found.consistent == sight.consistent
            &&& session.started_with is Some ==> found.breach == session.safety.breach(
                sight.stopped,
                session.started_with,
                sight.stack,
                session.actions,
            )
            &&& session.started_with is None && sight.pictured && sight.settled ==> found.breach
                == session.safety.breach(sight.stopped, sight.stack, sight.stack, session.actions)
        }),
{
}

/// Limits below nothing: who has lost nothing has reached every one of them, and
/// what is no number is never reached.
pub proof fn law_no_gain_is_too_small_for_a_negative_limit(started: int, now: int, limit: u64)
    requires
        0 <= now <= started,
        limit >= 0x8000_0000_0000_0000,
    ensures
        is_lost(started, now, limit) <==> limit <= 0x8000_0000_0000_0000 + double::ENDLESS,
{
    double::lemma_quotient_grows(now, started, 100);
}

/// What a recorded line says where nothing was read: the number of the picture in
/// five digits, and why nothing was done. Where something was read, it says yes
/// or no to whether the client asks.
pub proof fn law_records_say_why_nothing_was_done(frame: int, reading: Reading, notes: Notes, held: Held)
    ensures
        record_words(frame, None, notes, Some(held)) == text::zero_padded(frame, 5) + " -- no reading -- "@
            + held.words() + "\n"@,
        record_words(frame, Some(reading), (Notes { asking: true, ..notes }), Some(held)).len() == record_words(
            frame,
            Some(reading),
            (Notes { asking: false, ..notes }),
            Some(held),
        ).len() + 1,
{
    reveal_strlit("yes");
    reveal_strlit("no");
}

} // verus!
