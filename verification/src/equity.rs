//! Hand-versus-hand equity: the share of the pot a holding wins on average.
//!
//! [`exact`] goes through every remaining board runout. [`monte_carlo`] scores a
//! given list of runouts, which is how a Monte Carlo estimate is made from
//! random ones.
//!
//! Split pots are counted by how many hands shared them: `shared[i]` is the
//! number of runouts in which a hand was best together with exactly `i` others.
//! It takes one part in `i + 1` of the pot in each of those, so its share of the
//! pot is the sum of `shared[i] / (i + 1)` over the number of runouts.

use crate::card;
use crate::card::{Card, CardSet};
use crate::eval;
use crate::eval::{evaluate, HandRank};
use crate::omaha;
use crate::omaha::evaluate_omaha;
use crate::text;
use vstd::prelude::*;

verus! {

/// Which game's hand-forming rules apply.
#[derive(Debug, Clone, Copy, PartialEq, Eq, Structural)]
pub enum Variant {
    /// Any five of the seven cards play.
    Holdem,
    /// Exactly two hole cards and exactly three board cards play.
    Omaha,
}

impl Variant {
    /// The fewest and the most hole cards this variant accepts.
    pub open spec fn hole_range(self) -> (usize, usize) {
        match self {
            Variant::Holdem => (2, 2),
            Variant::Omaha => (4, 6),
        }
    }

    /// The hole-card counts this variant accepts. For Omaha four is standard;
    /// five and six card Omaha are played too.
    fn hole_cards(self) -> (range: (usize, usize))
        ensures
            range == self.hole_range(),
    {
        match self {
            Variant::Holdem => (2, 2),
            Variant::Omaha => (4, 6),
        }
    }
}

/// One player's share of the pot across all trials.
#[derive(Debug, Clone, PartialEq, Eq)]
pub struct Equity {
    /// Trials this hand won outright.
    pub wins: u64,
    /// Trials this hand tied for best.
    pub ties: u64,
    /// Trials evaluated.
    pub trials: u64,
    /// Trials in which this hand was best together with exactly `i` others, for
    /// each `i`.
    pub shared: Vec<u64>,
}

/// Why an equity calculation could not be run.
#[derive(Debug, Clone, Copy, PartialEq, Eq)]
pub enum EquityError {
    /// Fewer than two hands were given.
    TooFewHands(usize),
    /// A hand had the wrong number of hole cards for the variant.
    WrongHoleCount { hand: usize, found: usize, expected: (usize, usize) },
    /// More than five board cards.
    BoardTooLong(usize),
    /// The same card appeared twice across hands and board.
    DuplicateCard(Card),
    /// Not enough cards left in the deck to complete the board.
    DeckExhausted { needed: usize, available: usize },
}

/// The hole cards of each hand.
pub open spec fn holdings(hands: Seq<&[Card]>) -> Seq<Seq<Card>> {
    hands.map_values(|hand: &[Card]| hand@)
}

/// The cards used up once the first `k` of a list are dealt on top of `used`,
/// or the first card that was already out.
pub open spec fn deal_cards(cards: Seq<Card>, k: int, used: Set<Card>) -> Result<Set<Card>, Card>
    decreases k,
{
    if k <= 0 {
        Ok(used)
    } else {
        match deal_cards(cards, k - 1, used) {
            Err(card) => Err(card),
            Ok(out) => if out.contains(cards[k - 1]) {
                Err(cards[k - 1])
            } else {
                Ok(out.insert(cards[k - 1]))
            },
        }
    }
}

/// The cards used up once the first `k` hands are dealt, or what is wrong with
/// the first hand at fault.
pub open spec fn deal_hands(hands: Seq<Seq<Card>>, k: int, variant: Variant) -> Result<Set<Card>, EquityError>
    decreases k,
{
    if k <= 0 {
        Ok(Set::empty())
    } else {
        match deal_hands(hands, k - 1, variant) {
            Err(error) => Err(error),
            Ok(out) => {
                let hand = hands[k - 1];
                let range = variant.hole_range();
                if hand.len() < range.0 || hand.len() > range.1 {
                    Err(
                        EquityError::WrongHoleCount {
                            hand: (k - 1) as usize,
                            found: hand.len() as usize,
                            expected: range,
                        },
                    )
                } else {
                    match deal_cards(hand, hand.len() as int, out) {
                        Err(card) => Err(EquityError::DuplicateCard(card)),
                        Ok(more) => Ok(more),
                    }
                }
            },
        }
    }
}

/// The cards of the deck with an index below `k` that are not used, in order.
pub open spec fn undealt(used: Set<Card>, k: int) -> Seq<Card>
    decreases k,
{
    if k <= 0 {
        seq![]
    } else {
        let card = card::card_at((k - 1) / 4, (k - 1) % 4);
        if used.contains(card) {
            undealt(used, k - 1)
        } else {
            undealt(used, k - 1).push(card)
        }
    }
}

/// The cards still in the deck once hands and board are dealt, or why they make
/// no sense.
pub open spec fn deck_dealt(hands: Seq<Seq<Card>>, board: Seq<Card>, variant: Variant) -> Result<Seq<Card>, EquityError> {
    if hands.len() < 2 {
        Err(EquityError::TooFewHands(hands.len() as usize))
    } else if board.len() > 5 {
        Err(EquityError::BoardTooLong(board.len() as usize))
    } else {
        match deal_hands(hands, hands.len() as int, variant) {
            Err(error) => Err(error),
            Ok(out) => match deal_cards(board, board.len() as int, out) {
                Err(card) => Err(EquityError::DuplicateCard(card)),
                Ok(used) => Ok(undealt(used, 52)),
            },
        }
    }
}

/// The same, where enough cards are left to complete the board.
pub open spec fn deck_left(hands: Seq<Seq<Card>>, board: Seq<Card>, variant: Variant) -> Result<Seq<Card>, EquityError> {
    match deck_dealt(hands, board, variant) {
        Err(error) => Err(error),
        Ok(deck) => if deck.len() < 5 - board.len() {
            Err(
                EquityError::DeckExhausted {
                    needed: (5 - board.len()) as usize,
                    available: deck.len() as usize,
                },
            )
        } else {
            Ok(deck)
        },
    }
}

/// The strength of a holding on a complete board.
pub open spec fn holding_strength(variant: Variant, hole: Seq<Card>, board: Seq<Card>) -> int {
    match variant {
        Variant::Holdem => eval::strength((hole + board).to_set()),
        Variant::Omaha => choose|best: int| omaha::is_best_omaha(hole.to_set(), board.to_set(), best),
    }
}

/// Whether a hand is one of the best on a complete board.
pub open spec fn is_winner(hands: Seq<Seq<Card>>, board: Seq<Card>, variant: Variant, h: int) -> bool {
    forall|g: int|
        0 <= g < hands.len() ==> #[trigger] holding_strength(variant, hands[g], board) <= holding_strength(
            variant,
            hands[h],
            board,
        )
}

/// How many of the first `k` hands are among the best.
pub open spec fn winner_count(hands: Seq<Seq<Card>>, board: Seq<Card>, variant: Variant, k: int) -> int
    decreases k,
{
    if k <= 0 {
        0
    } else {
        winner_count(hands, board, variant, k - 1) + (if is_winner(hands, board, variant, k - 1) {
            1int
        } else {
            0
        })
    }
}

/// Whether a hand is one of exactly `k` best on a complete board.
pub open spec fn shares_pot(hands: Seq<Seq<Card>>, board: Seq<Card>, variant: Variant, h: int, k: int) -> bool {
    is_winner(hands, board, variant, h) && winner_count(hands, board, variant, hands.len() as int) == k
}

/// The runouts on which a hand is one of exactly `k` best.
pub open spec fn sharing(hands: Seq<Seq<Card>>, board: Seq<Card>, variant: Variant, h: int, k: int) -> spec_fn(
    Seq<Card>,
) -> bool {
    |runout: Seq<Card>| shares_pot(hands, board + runout, variant, h, k)
}

/// Every runout.
pub open spec fn any_runout() -> spec_fn(Seq<Card>) -> bool {
    |runout: Seq<Card>| true
}

/// How many ways of taking `needed` cards from position `start` of the deck on,
/// added to those already chosen, satisfy a condition: each card of the deck is
/// either taken or left.
pub open spec fn runouts(
    deck: Seq<Card>,
    start: int,
    needed: int,
    chosen: Seq<Card>,
    p: spec_fn(Seq<Card>) -> bool,
) -> int
    decreases deck.len() - start,
{
    if needed <= 0 {
        if p(chosen) {
            1
        } else {
            0
        }
    } else if start >= deck.len() {
        0
    } else {
        runouts(deck, start + 1, needed - 1, chosen.push(deck[start]), p) + runouts(
            deck,
            start + 1,
            needed,
            chosen,
            p,
        )
    }
}

/// The runouts on which a hand is one of `k` best or more.
pub open spec fn sharing_with(hands: Seq<Seq<Card>>, board: Seq<Card>, variant: Variant, h: int, k: int) -> spec_fn(
    Seq<Card>,
) -> bool {
    |runout: Seq<Card>|
        is_winner(hands, board + runout, variant, h) && winner_count(
            hands,
            board + runout,
            variant,
            hands.len() as int,
        ) >= k
}

/// The sum of the counts from position `k` on.
pub open spec fn sum_from(counts: Seq<u64>, k: int) -> int
    decreases counts.len() - k,
{
    if k >= counts.len() {
        0
    } else {
        counts[k] + sum_from(counts, k + 1)
    }
}

/// Whether results give the counts of the hands, where `measure` counts the
/// trials whose runout satisfies a condition.
pub open spec fn measured(
    equities: Seq<Equity>,
    hands: Seq<Seq<Card>>,
    board: Seq<Card>,
    variant: Variant,
    measure: spec_fn(spec_fn(Seq<Card>) -> bool) -> int,
) -> bool {
    &&& equities.len() == hands.len()
    &&& forall|h: int|
        0 <= h < hands.len() ==> {
            &&& (#[trigger] equities[h]).trials == measure(any_runout())
            &&& equities[h].wins == measure(sharing(hands, board, variant, h, 1))
            &&& equities[h].ties == measure(sharing_with(hands, board, variant, h, 2))
            &&& equities[h].shared@.len() == hands.len()
            &&& forall|i: int|
                0 <= i < hands.len() ==> #[trigger] equities[h].shared@[i] == measure(
                    sharing(hands, board, variant, h, i + 1),
                )
        }
}

/// Counting every way of completing the board.
pub open spec fn every_runout(deck: Seq<Card>, missing: int) -> spec_fn(spec_fn(Seq<Card>) -> bool) -> int {
    |p: spec_fn(Seq<Card>) -> bool| runouts(deck, 0, missing, seq![], p)
}

/// Whether a way of counting adds up over conditions that exclude each other.
pub open spec fn additive(measure: spec_fn(spec_fn(Seq<Card>) -> bool) -> int) -> bool {
    forall|p: spec_fn(Seq<Card>) -> bool, q: spec_fn(Seq<Card>) -> bool, r: spec_fn(Seq<Card>) -> bool|
        #![trigger measure(p), measure(q), measure(r)]
        (forall|x: Seq<Card>| eval::one(#[trigger] p(x)) == eval::one(q(x)) + eval::one(r(x))) ==> measure(p)
            == measure(q) + measure(r)
}

/// What holds of hands, a board and the rest of the deck once they are dealt:
/// enough cards of the right numbers, and no card in two places.
pub open spec fn laid_out(hands: Seq<Seq<Card>>, board: Seq<Card>, deck: Seq<Card>, variant: Variant) -> bool {
    &&& hands.len() >= 2
    &&& board.len() <= 5
    &&& deck.len() <= 52
    &&& (board + deck).no_duplicates()
    &&& forall|h: int|
        0 <= h < hands.len() ==> variant.hole_range().0 <= (#[trigger] hands[h]).len() <= variant.hole_range().1
            && hands[h].no_duplicates() && apart(hands[h], board + deck)
}

/// Whether two lists have no card in common.
pub open spec fn apart(a: Seq<Card>, b: Seq<Card>) -> bool {
    forall|i: int, j: int| 0 <= i < a.len() && 0 <= j < b.len() ==> #[trigger] a[i] != #[trigger] b[j]
}

proof fn lemma_deal_cards(cards: Seq<Card>, k: int, used: Set<Card>)
    requires
        0 <= k <= cards.len(),
    ensures
        deal_cards(cards, k, used) matches Ok(out) ==> {
            &&& forall|card: Card| #[trigger] out.contains(card) <==> used.contains(card) || cards.take(k).contains(card)
            &&& cards.take(k).no_duplicates()
            &&& forall|i: int| 0 <= i < k ==> !used.contains(#[trigger] cards[i])
        },
    decreases k,
{
    if k > 0 {
        lemma_deal_cards(cards, k - 1, used);
        let shorter = cards.take(k - 1);
        let longer = cards.take(k);
        assert(longer =~= shorter.push(cards[k - 1]));
        if let Ok(out) = deal_cards(cards, k, used) {
            let before = deal_cards(cards, k - 1, used)->Ok_0;
            assert(out == before.insert(cards[k - 1]));
            assert forall|card: Card| #[trigger] out.contains(card) <==> used.contains(card) || longer.contains(card) by {
                if longer.contains(card) {
                    let i = choose|i: int| 0 <= i < longer.len() && longer[i] == card;
                    assert(i == k - 1 || shorter[i] == card);
                }
                if shorter.contains(card) {
                    let i = choose|i: int| 0 <= i < shorter.len() && shorter[i] == card;
                    assert(longer[i] == card);
                }
                assert(longer[k - 1] == cards[k - 1]);
            }
            assert(!shorter.contains(cards[k - 1]));
            assert forall|i: int, j: int| 0 <= i < k && 0 <= j < k && i != j implies longer[i] != longer[j] by {
                if i == k - 1 {
                    assert(shorter.contains(shorter[j]));
                } else if j == k - 1 {
                    assert(shorter.contains(shorter[i]));
                } else {
                    assert(shorter[i] != shorter[j]);
                }
            }
        }
    } else {
        assert(cards.take(0) =~= seq![]);
    }
}

/// A fault found in the first cards is the fault of the whole list.
proof fn lemma_deal_cards_fault(cards: Seq<Card>, j: int, k: int, used: Set<Card>)
    requires
        0 <= j <= k <= cards.len(),
        deal_cards(cards, j, used) is Err,
    ensures
        deal_cards(cards, k, used) == deal_cards(cards, j, used),
    decreases k,
{
    if j < k {
        lemma_deal_cards_fault(cards, j, k - 1, used);
    }
}

proof fn lemma_deal_hands_fault(hands: Seq<Seq<Card>>, j: int, k: int, variant: Variant)
    requires
        0 <= j <= k <= hands.len(),
        deal_hands(hands, j, variant) is Err,
    ensures
        deal_hands(hands, k, variant) == deal_hands(hands, j, variant),
    decreases k,
{
    if j < k {
        lemma_deal_hands_fault(hands, j, k - 1, variant);
    }
}

proof fn lemma_deal_hands(hands: Seq<Seq<Card>>, k: int, variant: Variant)
    requires
        0 <= k <= hands.len(),
    ensures
        deal_hands(hands, k, variant) matches Ok(out) ==> forall|h: int|
            0 <= h < k ==> {
                &&& variant.hole_range().0 <= (#[trigger] hands[h]).len() <= variant.hole_range().1
                &&& hands[h].no_duplicates()
                &&& forall|i: int| 0 <= i < hands[h].len() ==> out.contains(#[trigger] hands[h][i])
            },
    decreases k,
{
    if k > 0 {
        lemma_deal_hands(hands, k - 1, variant);
        if let Ok(out) = deal_hands(hands, k, variant) {
            let before = deal_hands(hands, k - 1, variant)->Ok_0;
            let hand = hands[k - 1];
            lemma_deal_cards(hand, hand.len() as int, before);
            assert(hand.take(hand.len() as int) =~= hand);
            assert forall|h: int| 0 <= h < k implies {
                &&& variant.hole_range().0 <= (#[trigger] hands[h]).len() <= variant.hole_range().1
                &&& hands[h].no_duplicates()
                &&& forall|i: int| 0 <= i < hands[h].len() ==> out.contains(#[trigger] hands[h][i])
            } by {
                assert forall|i: int| 0 <= i < hands[h].len() implies out.contains(#[trigger] hands[h][i]) by {
                    if h == k - 1 {
                        assert(hand.contains(hand[i]));
                    } else {
                        assert(before.contains(hands[h][i]));
                    }
                }
            }
        }
    }
}

proof fn lemma_undealt(used: Set<Card>, k: int)
    requires
        0 <= k <= 52,
    ensures
        undealt(used, k).len() <= k,
        forall|i: int| 0 <= i < undealt(used, k).len() ==> !used.contains(#[trigger] undealt(used, k)[i]) && undealt(used, k)[i].order() < k,
        undealt(used, k).no_duplicates(),
    decreases k,
{
    if k > 0 {
        lemma_undealt(used, k - 1);
        let card = card::card_at((k - 1) / 4, (k - 1) % 4);
        assert(card.order() == k - 1);
        let before = undealt(used, k - 1);
        let after = undealt(used, k);
        assert forall|i: int| 0 <= i < after.len() implies !used.contains(#[trigger] after[i]) && after[i].order() < k by {
            if i < before.len() {
                assert(before[i].order() < k - 1);
            }
        }
        assert forall|i: int, j: int| 0 <= i < after.len() && 0 <= j < after.len() && i != j implies after[i] != after[j] by {
            if i < before.len() {
                assert(before[i].order() < k - 1);
            }
            if j < before.len() {
                assert(before[j].order() < k - 1);
            }
        }
    }
}

/// What is dealt without fault is laid out properly.
proof fn lemma_laid_out(hands: Seq<Seq<Card>>, board: Seq<Card>, variant: Variant)
    ensures
        deck_dealt(hands, board, variant) matches Ok(deck) ==> laid_out(hands, board, deck, variant),
{
    if let Ok(deck) = deck_dealt(hands, board, variant) {
        let out = deal_hands(hands, hands.len() as int, variant)->Ok_0;
        let used = deal_cards(board, board.len() as int, out)->Ok_0;
        lemma_deal_hands(hands, hands.len() as int, variant);
        lemma_deal_cards(board, board.len() as int, out);
        assert(board.take(board.len() as int) =~= board);
        lemma_undealt(used, 52);
        let rest = board + deck;
        assert forall|i: int, j: int| 0 <= i < rest.len() && 0 <= j < rest.len() && i != j implies rest[i] != rest[j] by {
            let n = board.len() as int;
            if i < n && j >= n {
                assert(board.contains(board[i]));
                assert(!used.contains(deck[j - n]));
            } else if j < n && i >= n {
                assert(board.contains(board[j]));
                assert(!used.contains(deck[i - n]));
            } else if i >= n {
                assert(deck[i - n] != deck[j - n]);
            }
        }
        assert forall|h: int| 0 <= h < hands.len() implies apart(#[trigger] hands[h], rest) by {
            assert forall|i: int, j: int| 0 <= i < hands[h].len() && 0 <= j < rest.len() implies #[trigger] hands[h][i] != #[trigger] rest[j] by {
                assert(out.contains(hands[h][i]));
                let n = board.len() as int;
                if j < n {
                    assert(!out.contains(board[j]));
                } else {
                    assert(!used.contains(deck[j - n]));
                }
            }
        }
    }
}

/// Validates the inputs and returns the cards still in the deck, which are
/// enough to complete the board.
pub fn prepare(hands: &[&[Card]], board: &[Card], variant: Variant) -> (deck: Result<Vec<Card>, EquityError>)
    ensures
        match deck_left(holdings(hands@), board@, variant) {
            Ok(cards) => deck matches Ok(list) && list@ == cards && laid_out(
                holdings(hands@),
                board@,
                cards,
                variant,
            ),
            Err(error) => deck == Err::<Vec<Card>, EquityError>(error),
        },
{
    match deal(hands, board, variant) {
        Err(error) => Err(error),
        Ok(deck) => {
            let needed: usize = 5 - board.len();
            if deck.len() < needed {
                Err(EquityError::DeckExhausted { needed, available: deck.len() })
            } else {
                Ok(deck)
            }
        },
    }
}

/// Deals the hands and the board, and returns the cards still in the deck.
pub(crate) fn deal(hands: &[&[Card]], board: &[Card], variant: Variant) -> (deck: Result<Vec<Card>, EquityError>)
    ensures
        match deck_dealt(holdings(hands@), board@, variant) {
            Ok(cards) => deck matches Ok(list) && list@ == cards && laid_out(
                holdings(hands@),
                board@,
                cards,
                variant,
            ),
            Err(error) => deck == Err::<Vec<Card>, EquityError>(error),
        },
{
    if hands.len() < 2 {
        return Err(EquityError::TooFewHands(hands.len()));
    }
    if board.len() > 5 {
        return Err(EquityError::BoardTooLong(board.len()));
    }
    let (low, high) = variant.hole_cards();
    let ghost all = holdings(hands@);
    let mut used = CardSet::empty();
    let mut h: usize = 0;
    while h < hands.len()
        invariant
            h <= hands@.len(),
            hands@.len() >= 2,
            board@.len() <= 5,
            all == holdings(hands@),
            (low, high) == variant.hole_range(),
            deal_hands(all, h as int, variant) == Ok::<Set<Card>, EquityError>(used@),
        decreases hands@.len() - h,
    {
        let hand: &[Card] = hands[h];
        assert(all[h as int] == hand@);
        if hand.len() < low || hand.len() > high {
            proof {
                lemma_deal_hands_fault(all, h + 1, all.len() as int, variant);
            }
            return Err(EquityError::WrongHoleCount { hand: h, found: hand.len(), expected: (low, high) });
        }
        let ghost start = used@;
        let mut i: usize = 0;
        while i < hand.len()
            invariant
                i <= hand@.len(),
                h < hands@.len(),
                hands@.len() >= 2,
                board@.len() <= 5,
                all == holdings(hands@),
                all[h as int] == hand@,
                (low, high) == variant.hole_range(),
                low <= hand@.len() <= high,
                deal_hands(all, h as int, variant) == Ok::<Set<Card>, EquityError>(start),
                deal_cards(hand@, i as int, start) == Ok::<Set<Card>, Card>(used@),
            decreases hand@.len() - i,
        {
            let card = hand[i];
            if !used.insert(card) {
                proof {
                    lemma_deal_cards_fault(hand@, i + 1, hand@.len() as int, start);
                    lemma_deal_hands_fault(all, h + 1, all.len() as int, variant);
                }
                return Err(EquityError::DuplicateCard(card));
            }
            i = i + 1;
        }
        h = h + 1;
    }
    let ghost out = used@;
    let mut i: usize = 0;
    while i < board.len()
        invariant
            i <= board@.len() <= 5,
            hands@.len() >= 2,
            all == holdings(hands@),
            deal_hands(all, all.len() as int, variant) == Ok::<Set<Card>, EquityError>(out),
            deal_cards(board@, i as int, out) == Ok::<Set<Card>, Card>(used@),
        decreases board@.len() - i,
    {
        let card = board[i];
        if !used.insert(card) {
            proof {
                lemma_deal_cards_fault(board@, i + 1, board@.len() as int, out);
            }
            return Err(EquityError::DuplicateCard(card));
        }
        i = i + 1;
    }
    let mut deck: Vec<Card> = Vec::new();
    let mut index: u8 = 0;
    while index < 52
        invariant
            index <= 52,
            deck@ == undealt(used@, index as int),
        decreases 52 - index,
    {
        if let Some(card) = Card::from_index(index) {
            proof {
                let expected = card::card_at(index as int / 4, index as int % 4);
                assert(expected.order() == index);
                card::lemma_order(card, expected);
            }
            if !used.contains(card) {
                deck.push(card);
            }
        }
        index = index + 1;
    }
    proof {
        lemma_laid_out(all, board@, variant);
    }
    Ok(deck)
}

/// One list after another.
fn joined(a: &[Card], b: &[Card]) -> (both: Vec<Card>)
    ensures
        both@ == a@ + b@,
{
    let mut both: Vec<Card> = Vec::new();
    let mut i: usize = 0;
    while i < a.len()
        invariant
            i <= a@.len(),
            both@ == a@.take(i as int),
        decreases a@.len() - i,
    {
        both.push(a[i]);
        assert(both@ =~= a@.take(i + 1));
        i = i + 1;
    }
    let mut j: usize = 0;
    assert(both@ =~= a@ + b@.take(0));
    while j < b.len()
        invariant
            j <= b@.len(),
            both@ == a@ + b@.take(j as int),
        decreases b@.len() - j,
    {
        both.push(b[j]);
        assert(both@ =~= a@ + b@.take(j + 1));
        j = j + 1;
    }
    assert(both@ =~= a@ + b@);
    both
}

/// Ranks one hand on a complete board.
fn rank_hand(variant: Variant, hole: &[Card], board: &[Card]) -> (rank: HandRank)
    requires
        variant.hole_range().0 <= hole@.len() <= variant.hole_range().1,
        board@.len() == 5,
        (hole@ + board@).no_duplicates(),
    ensures
        rank@ == holding_strength(variant, hole@, board@),
{
    match variant {
        Variant::Holdem => {
            let cards = joined(hole, board);
            evaluate(cards.as_slice())
        },
        Variant::Omaha => {
            let rank = evaluate_omaha(hole, board);
            proof {
                omaha::law_omaha_strength_is_settled_by_the_cards(
                    hole@.to_set(),
                    board@.to_set(),
                    rank@,
                    holding_strength(variant, hole@, board@),
                );
            }
            rank
        },
    }
}

/// Whether every hand can be shown down on a complete board.
pub open spec fn showable(hands: Seq<Seq<Card>>, board: Seq<Card>, variant: Variant) -> bool {
    &&& hands.len() >= 2
    &&& board.len() == 5
    &&& forall|h: int|
        0 <= h < hands.len() ==> variant.hole_range().0 <= (#[trigger] hands[h]).len() <= variant.hole_range().1
            && (hands[h] + board).no_duplicates()
}

pub open spec fn tally_counts(tallies: Seq<Vec<u64>>, h: int, i: int) -> int {
    tallies[h]@[i] as int
}

/// Whether there is a row for each hand, with a count for each number of others.
pub open spec fn square(tallies: Seq<Vec<u64>>, n: int) -> bool {
    tallies.len() == n && forall|h: int| 0 <= h < n ==> (#[trigger] tallies[h])@.len() == n
}

proof fn lemma_winner_count(hands: Seq<Seq<Card>>, board: Seq<Card>, variant: Variant, k: int)
    requires
        0 <= k <= hands.len(),
    ensures
        0 <= winner_count(hands, board, variant, k) <= k,
        forall|h: int| 0 <= h < k && #[trigger] is_winner(hands, board, variant, h) ==> winner_count(hands, board, variant, k) >= 1,
    decreases k,
{
    if k > 0 {
        lemma_winner_count(hands, board, variant, k - 1);
    }
}

/// Scores one completed board and adds the result to the tallies.
fn score(hands: &[&[Card]], board: &[Card], variant: Variant, tallies: &mut Vec<Vec<u64>>)
    requires
        showable(holdings(hands@), board@, variant),
        square(old(tallies)@, hands@.len() as int),
        forall|h: int, i: int|
            0 <= h < hands@.len() && 0 <= i < hands@.len() ==> #[trigger] tally_counts(old(tallies)@, h, i) < u64::MAX,
    ensures
        square(final(tallies)@, hands@.len() as int),
        forall|h: int, i: int|
            0 <= h < hands@.len() && 0 <= i < hands@.len() ==> #[trigger] tally_counts(final(tallies)@, h, i)
                == tally_counts(old(tallies)@, h, i) + eval::one(
                shares_pot(holdings(hands@), board@, variant, h, i + 1),
            ),
{
    let n: usize = hands.len();
    let ghost all = holdings(hands@);
    let mut ranks: Vec<u32> = Vec::new();
    let mut best: u32 = 0;
    let mut h: usize = 0;
    while h < n
        invariant
            n == hands@.len(),
            h <= n,
            all == holdings(hands@),
            showable(all, board@, variant),
            ranks@.len() == h,
            forall|g: int| 0 <= g < h ==> #[trigger] ranks@[g] == holding_strength(variant, all[g], board@),
            forall|g: int| 0 <= g < h ==> #[trigger] ranks@[g] <= best,
            h > 0 ==> exists|g: int| 0 <= g < h && #[trigger] ranks@[g] == best,
        decreases n - h,
    {
        assert(all[h as int] == hands@[h as int]@);
        let rank: u32 = rank_hand(variant, hands[h], board).to_bits();
        let ghost earlier = ranks@;
        ranks.push(rank);
        if h == 0 || rank > best {
            best = rank;
            assert(ranks@[h as int] == best);
        } else {
            proof {
                let g = choose|g: int| 0 <= g < h && #[trigger] earlier[g] == best;
                assert(ranks@[g] == best);
            }
        }
        h = h + 1;
    }
    proof {
        let top = choose|g: int| 0 <= g < n && #[trigger] ranks@[g] == best;
        assert forall|g: int| 0 <= g < n implies #[trigger] is_winner(all, board@, variant, g) == (ranks@[g] == best) by {
            if ranks@[g] == best {
                assert forall|f: int| 0 <= f < all.len() implies #[trigger] holding_strength(variant, all[f], board@)
                    <= holding_strength(variant, all[g], board@) by {
                    assert(ranks@[f] <= best);
                }
            } else {
                assert(holding_strength(variant, all[top], board@) == best);
                assert(ranks@[g] <= best);
            }
        }
    }
    let mut count: usize = 0;
    let mut g: usize = 0;
    while g < n
        invariant
            n == ranks@.len() == all.len(),
            g <= n,
            count <= g,
            count == winner_count(all, board@, variant, g as int),
            forall|f: int| 0 <= f < n ==> #[trigger] is_winner(all, board@, variant, f) == (ranks@[f] == best),
        decreases n - g,
    {
        assert(is_winner(all, board@, variant, g as int) == (ranks@[g as int] == best));
        if ranks[g] == best {
            count = count + 1;
        }
        g = g + 1;
    }
    proof {
        lemma_winner_count(all, board@, variant, n as int);
        let top = choose|f: int| 0 <= f < n && #[trigger] ranks@[f] == best;
        assert(is_winner(all, board@, variant, top));
    }
    let mut j: usize = 0;
    let ghost before = tallies@;
    while j < n
        invariant
            n == ranks@.len() == all.len(),
            j <= n,
            1 <= count <= n,
            count == winner_count(all, board@, variant, n as int),
            forall|f: int| 0 <= f < n ==> #[trigger] is_winner(all, board@, variant, f) == (ranks@[f] == best),
            square(before, n as int),
            square(tallies@, n as int),
            forall|f: int, i: int|
                0 <= f < n && 0 <= i < n ==> #[trigger] tally_counts(before, f, i) < u64::MAX,
            forall|f: int, i: int|
                0 <= f < n && 0 <= i < n ==> #[trigger] tally_counts(tallies@, f, i) == tally_counts(before, f, i)
                    + (if f < j {
                    eval::one(shares_pot(all, board@, variant, f, i + 1))
                } else {
                    0
                }),
        decreases n - j,
    {
        assert(is_winner(all, board@, variant, j as int) == (ranks@[j as int] == best));
        if ranks[j] == best {
            let ghost previous = tallies@;
            assert(tally_counts(previous, j as int, count - 1) == tally_counts(before, j as int, count - 1));
            let more: u64 = tallies[j][count - 1] + 1;
            tallies[j].set(count - 1, more);
            proof {
                assert forall|f: int, i: int| 0 <= f < n && 0 <= i < n implies #[trigger] tally_counts(tallies@, f, i)
                    == tally_counts(before, f, i) + (if f < j + 1 {
                    eval::one(shares_pot(all, board@, variant, f, i + 1))
                } else {
                    0
                }) by {
                    assert(tally_counts(previous, f, i) == tally_counts(before, f, i) + (if f < j {
                        eval::one(shares_pot(all, board@, variant, f, i + 1))
                    } else {
                        0
                    }));
                }
            }
        }
        j = j + 1;
    }
}

/// Two to the power `n`.
pub open spec fn doublings(n: int) -> int
    decreases n,
{
    if n <= 0 {
        1
    } else {
        2 * doublings(n - 1)
    }
}

proof fn lemma_doublings(n: int)
    requires
        n <= 52,
    ensures
        1 <= doublings(n) <= 0x10_0000_0000_0000,
{
    assert(doublings(52) == 0x10_0000_0000_0000) by {
        reveal_with_fuel(doublings, 53);
    }
    lemma_doublings_grow(n, 52);
}

proof fn lemma_doublings_grow(m: int, n: int)
    requires
        m <= n,
    ensures
        1 <= doublings(m) <= doublings(n),
    decreases n,
{
    if n > 0 {
        if m < n {
            lemma_doublings_grow(m, n - 1);
        } else {
            lemma_doublings_grow(m - 1, n - 1);
        }
    }
}

/// A condition holds of no more runouts than there are, and there are no more
/// than ways to take or leave each card.
proof fn lemma_runouts_bound(deck: Seq<Card>, start: int, needed: int, chosen: Seq<Card>, p: spec_fn(Seq<Card>) -> bool)
    requires
        0 <= start <= deck.len(),
    ensures
        0 <= runouts(deck, start, needed, chosen, p) <= runouts(deck, start, needed, chosen, any_runout()),
        runouts(deck, start, needed, chosen, any_runout()) <= doublings(deck.len() - start),
    decreases deck.len() - start,
{
    if needed <= 0 {
        lemma_doublings_grow(0, deck.len() - start);
    } else if start < deck.len() {
        lemma_runouts_bound(deck, start + 1, needed - 1, chosen.push(deck[start]), p);
        lemma_runouts_bound(deck, start + 1, needed, chosen, p);
    }
}

/// No runout can be completed from too few cards.
proof fn lemma_runouts_none(deck: Seq<Card>, start: int, needed: int, chosen: Seq<Card>, p: spec_fn(Seq<Card>) -> bool)
    requires
        0 <= start <= deck.len(),
        deck.len() - start < needed,
    ensures
        runouts(deck, start, needed, chosen, p) == 0,
    decreases deck.len() - start,
{
    if start < deck.len() {
        lemma_runouts_none(deck, start + 1, needed - 1, chosen.push(deck[start]), p);
        lemma_runouts_none(deck, start + 1, needed, chosen, p);
    }
}

/// Whether cards were chosen, each once, from the first part of a deck.
pub open spec fn drawn_from(deck: Seq<Card>, start: int, chosen: Seq<Card>) -> bool {
    &&& chosen.no_duplicates()
    &&& forall|i: int| 0 <= i < chosen.len() ==> deck.take(start).contains(#[trigger] chosen[i])
}

/// A board completed from the deck can be shown down.
proof fn lemma_showable(
    hands: Seq<Seq<Card>>,
    board: Seq<Card>,
    deck: Seq<Card>,
    variant: Variant,
    start: int,
    chosen: Seq<Card>,
)
    requires
        laid_out(hands, board, deck, variant),
        0 <= start <= deck.len(),
        drawn_from(deck, start, chosen),
        board.len() + chosen.len() == 5,
    ensures
        showable(hands, board + chosen, variant),
{
    let rest = board + deck;
    let full = board + chosen;
    let n = board.len() as int;
    assert forall|j: int| 0 <= j < full.len() implies rest.contains(#[trigger] full[j]) && (j >= n ==> exists|d: int|
        n <= d < rest.len() && rest[d] == full[j]) by {
        if j < n {
            assert(rest[j] == full[j]);
        } else {
            assert(deck.take(start).contains(chosen[j - n]));
            let d = choose|d: int| 0 <= d < start && deck.take(start)[d] == chosen[j - n];
            assert(rest[n + d] == full[j]);
        }
    }
    assert forall|i: int, j: int| 0 <= i < full.len() && 0 <= j < full.len() && i != j implies full[i] != full[j] by {
        if i < n && j >= n {
            let d = choose|d: int| n <= d < rest.len() && rest[d] == full[j];
            assert(rest[i] == full[i]);
        } else if j < n && i >= n {
            let d = choose|d: int| n <= d < rest.len() && rest[d] == full[i];
            assert(rest[j] == full[j]);
        } else if i < n {
            assert(rest[i] == full[i] && rest[j] == full[j]);
        } else {
            assert(chosen[i - n] != chosen[j - n]);
        }
    }
    assert forall|h: int| 0 <= h < hands.len() implies (#[trigger] hands[h] + full).no_duplicates() by {
        let both = hands[h] + full;
        let m = hands[h].len() as int;
        assert forall|i: int, j: int| 0 <= i < m && 0 <= j < full.len() implies hands[h][i] != full[j] by {
            assert(rest.contains(full[j]));
            let d = choose|d: int| 0 <= d < rest.len() && rest[d] == full[j];
            assert(apart(hands[h], rest));
            assert(hands[h][i] != rest[d]);
        }
        assert forall|i: int, j: int| 0 <= i < both.len() && 0 <= j < both.len() && i != j implies both[i] != both[j] by {
            if i < m && j < m {
                assert(hands[h][i] != hands[h][j]);
            } else if i < m {
                assert(hands[h][i] != full[j - m]);
            } else if j < m {
                assert(hands[h][j] != full[i - m]);
            } else {
                assert(full[i - m] != full[j - m]);
            }
        }
    }
}

proof fn lemma_draw_one(deck: Seq<Card>, start: int, index: int, chosen: Seq<Card>)
    requires
        deck.no_duplicates(),
        0 <= start <= index < deck.len(),
        drawn_from(deck, start, chosen),
    ensures
        drawn_from(deck, index + 1, chosen.push(deck[index])),
        drawn_from(deck, index + 1, chosen),
{
    let longer = chosen.push(deck[index]);
    let part = deck.take(index + 1);
    assert forall|i: int| 0 <= i < longer.len() implies part.contains(#[trigger] longer[i]) && (i < chosen.len()
        ==> longer[i] != deck[index]) by {
        if i < chosen.len() {
            assert(deck.take(start).contains(chosen[i]));
            let d = choose|d: int| 0 <= d < start && deck.take(start)[d] == chosen[i];
            assert(part[d] == longer[i]);
            assert(deck[d] != deck[index]);
        } else {
            assert(part[index] == longer[i]);
        }
    }
    assert forall|i: int, j: int| 0 <= i < longer.len() && 0 <= j < longer.len() && i != j implies longer[i]
        != longer[j] by {
        if i < chosen.len() && j < chosen.len() {
            assert(chosen[i] != chosen[j]);
        } else if i < chosen.len() {
            assert(longer[i] != deck[index]);
        } else {
            assert(longer[j] != deck[index]);
        }
    }
    assert forall|i: int| 0 <= i < chosen.len() implies part.contains(#[trigger] chosen[i]) by {
        assert(longer[i] == chosen[i]);
    }
}

/// Goes through every way of completing the board with cards from position
/// `start` of the deck on, scores each, and counts them.
fn enumerate(
    hands: &[&[Card]],
    board: &[Card],
    variant: Variant,
    deck: &Vec<Card>,
    start: usize,
    chosen: &mut Vec<Card>,
    tallies: &mut Vec<Vec<u64>>,
    trials: &mut u64,
)
    requires
        laid_out(holdings(hands@), board@, deck@, variant),
        start <= deck@.len(),
        board@.len() + old(chosen)@.len() <= 5,
        drawn_from(deck@, start as int, old(chosen)@),
        square(old(tallies)@, hands@.len() as int),
        forall|h: int, i: int|
            0 <= h < hands@.len() && 0 <= i < hands@.len() ==> #[trigger] tally_counts(old(tallies)@, h, i) <= *old(trials),
        *old(trials) + runouts(
            deck@,
            start as int,
            5 - board@.len() - old(chosen)@.len(),
            old(chosen)@,
            any_runout(),
        ) <= u64::MAX,
    ensures
        final(chosen)@ == old(chosen)@,
        square(final(tallies)@, hands@.len() as int),
        *final(trials) == *old(trials) + runouts(
            deck@,
            start as int,
            5 - board@.len() - old(chosen)@.len(),
            old(chosen)@,
            any_runout(),
        ),
        forall|h: int, i: int|
            0 <= h < hands@.len() && 0 <= i < hands@.len() ==> #[trigger] tally_counts(final(tallies)@, h, i) <= *final(trials),
        forall|h: int, i: int|
            0 <= h < hands@.len() && 0 <= i < hands@.len() ==> #[trigger] tally_counts(final(tallies)@, h, i)
                == tally_counts(old(tallies)@, h, i) + runouts(
                deck@,
                start as int,
                5 - board@.len() - old(chosen)@.len(),
                old(chosen)@,
                sharing(holdings(hands@), board@, variant, h, i + 1),
            ),
    decreases 5 - board@.len() - old(chosen)@.len(),
{
    let needed: usize = 5 - board.len() - chosen.len();
    let ghost all = holdings(hands@);
    let ghost base = chosen@;
    if needed == 0 {
        let full = joined(board, chosen.as_slice());
        proof {
            lemma_showable(all, board@, deck@, variant, start as int, chosen@);
        }
        let ghost before = tallies@;
        score(hands, full.as_slice(), variant, tallies);
        *trials = *trials + 1;
        proof {
            assert forall|h: int, i: int| 0 <= h < hands@.len() && 0 <= i < hands@.len() implies #[trigger] tally_counts(
                tallies@,
                h,
                i,
            ) <= *trials && tally_counts(tallies@, h, i) == tally_counts(before, h, i) + runouts(
                deck@,
                start as int,
                0,
                base,
                sharing(all, board@, variant, h, i + 1),
            ) by {
                assert(tally_counts(before, h, i) <= *old(trials));
            }
        }
        return ;
    }
    let mut index: usize = start;
    while index < deck.len() && deck.len() - index >= needed
        invariant
            laid_out(all, board@, deck@, variant),
            all == holdings(hands@),
            start <= index <= deck@.len(),
            needed == 5 - board@.len() - base.len(),
            needed > 0,
            board@.len() + base.len() <= 5,
            chosen@ == base,
            base == old(chosen)@,
            drawn_from(deck@, index as int, base),
            square(tallies@, hands@.len() as int),
            forall|h: int, i: int|
                0 <= h < hands@.len() && 0 <= i < hands@.len() ==> #[trigger] tally_counts(tallies@, h, i) <= *trials,
            *trials + runouts(deck@, index as int, needed as int, base, any_runout()) == *old(trials) + runouts(
                deck@,
                start as int,
                needed as int,
                base,
                any_runout(),
            ),
            *old(trials) + runouts(deck@, start as int, needed as int, base, any_runout()) <= u64::MAX,
            forall|h: int, i: int|
                0 <= h < hands@.len() && 0 <= i < hands@.len() ==> #[trigger] tally_counts(tallies@, h, i) + runouts(
                    deck@,
                    index as int,
                    needed as int,
                    base,
                    sharing(all, board@, variant, h, i + 1),
                ) == tally_counts(old(tallies)@, h, i) + runouts(
                    deck@,
                    start as int,
                    needed as int,
                    base,
                    sharing(all, board@, variant, h, i + 1),
                ),
        decreases deck@.len() - index,
    {
        let ghost before = tallies@;
        proof {
            assert(deck@.no_duplicates()) by {
                let rest = board@ + deck@;
                assert forall|i: int, j: int| 0 <= i < deck@.len() && 0 <= j < deck@.len() && i != j implies deck@[i] != deck@[j] by {
                    assert(rest[board@.len() + i] != rest[board@.len() + j]);
                }
            }
            lemma_draw_one(deck@, index as int, index as int, base);
            lemma_runouts_bound(deck@, index + 1, needed as int, base, any_runout());
            lemma_runouts_bound(deck@, index + 1, needed - 1, base.push(deck@[index as int]), any_runout());
        }
        chosen.push(deck[index]);
        enumerate(hands, board, variant, deck, index + 1, chosen, tallies, trials);
        chosen.pop();
        assert(chosen@ =~= base);
        proof {
            assert forall|h: int, i: int| 0 <= h < hands@.len() && 0 <= i < hands@.len() implies #[trigger] tally_counts(
                tallies@,
                h,
                i,
            ) + runouts(deck@, index + 1, needed as int, base, sharing(all, board@, variant, h, i + 1)) == tally_counts(
                old(tallies)@,
                h,
                i,
            ) + runouts(deck@, start as int, needed as int, base, sharing(all, board@, variant, h, i + 1)) by {
                let p = sharing(all, board@, variant, h, i + 1);
                assert(tally_counts(before, h, i) + runouts(deck@, index as int, needed as int, base, p)
                    == tally_counts(old(tallies)@, h, i) + runouts(deck@, start as int, needed as int, base, p));
                assert(tally_counts(tallies@, h, i) == tally_counts(before, h, i) + runouts(
                    deck@,
                    index + 1,
                    needed - 1,
                    base.push(deck@[index as int]),
                    p,
                ));
            }
        }
        index = index + 1;
    }
    proof {
        lemma_runouts_none(deck@, index as int, needed as int, base, any_runout());
        assert forall|h: int, i: int| 0 <= h < hands@.len() && 0 <= i < hands@.len() implies #[trigger] tally_counts(
            tallies@,
            h,
            i,
        ) == tally_counts(old(tallies)@, h, i) + runouts(
            deck@,
            start as int,
            needed as int,
            base,
            sharing(all, board@, variant, h, i + 1),
        ) by {
            lemma_runouts_none(deck@, index as int, needed as int, base, sharing(all, board@, variant, h, i + 1));
        }
    }
}

/// A table of zero counts for `n` hands.
fn fresh_tallies(n: usize) -> (tallies: Vec<Vec<u64>>)
    ensures
        square(tallies@, n as int),
        forall|h: int, i: int| 0 <= h < n && 0 <= i < n ==> #[trigger] tally_counts(tallies@, h, i) == 0,
{
    let mut tallies: Vec<Vec<u64>> = Vec::new();
    while tallies.len() < n
        invariant
            tallies@.len() <= n,
            forall|h: int| 0 <= h < tallies@.len() ==> (#[trigger] tallies@[h])@.len() == n,
            forall|h: int, i: int|
                0 <= h < tallies@.len() && 0 <= i < n ==> #[trigger] tally_counts(tallies@, h, i) == 0,
        decreases n - tallies@.len(),
    {
        let mut row: Vec<u64> = Vec::new();
        while row.len() < n
            invariant
                row@.len() <= n,
                forall|i: int| 0 <= i < row@.len() ==> #[trigger] row@[i] == 0,
            decreases n - row@.len(),
        {
            row.push(0);
        }
        let ghost before = tallies@;
        tallies.push(row);
        proof {
            assert forall|h: int, i: int| 0 <= h < tallies@.len() && 0 <= i < n implies #[trigger] tally_counts(
                tallies@,
                h,
                i,
            ) == 0 by {
                if h < before.len() {
                    assert(tally_counts(before, h, i) == 0);
                }
            }
        }
    }
    tallies
}

proof fn lemma_runouts_add(
    deck: Seq<Card>,
    start: int,
    needed: int,
    chosen: Seq<Card>,
    p: spec_fn(Seq<Card>) -> bool,
    q: spec_fn(Seq<Card>) -> bool,
    r: spec_fn(Seq<Card>) -> bool,
)
    requires
        forall|x: Seq<Card>| eval::one(#[trigger] p(x)) == eval::one(q(x)) + eval::one(r(x)),
    ensures
        runouts(deck, start, needed, chosen, p) == runouts(deck, start, needed, chosen, q) + runouts(
            deck,
            start,
            needed,
            chosen,
            r,
        ),
    decreases deck.len() - start,
{
    if needed <= 0 {
        assert(eval::one(p(chosen)) == eval::one(q(chosen)) + eval::one(r(chosen)));
    } else if start < deck.len() {
        lemma_runouts_add(deck, start + 1, needed - 1, chosen.push(deck[start]), p, q, r);
        lemma_runouts_add(deck, start + 1, needed, chosen, p, q, r);
    }
}

proof fn lemma_every_runout_additive(deck: Seq<Card>, missing: int)
    ensures
        additive(every_runout(deck, missing)),
{
    let measure = every_runout(deck, missing);
    assert forall|p: spec_fn(Seq<Card>) -> bool, q: spec_fn(Seq<Card>) -> bool, r: spec_fn(Seq<Card>) -> bool|
        #![trigger measure(p), measure(q), measure(r)]
        (forall|x: Seq<Card>| eval::one(#[trigger] p(x)) == eval::one(q(x)) + eval::one(r(x))) implies measure(p)
        == measure(q) + measure(r) by {
        lemma_runouts_add(deck, 0, missing, seq![], p, q, r);
    }
}

/// Sharing a pot with any number of others from `k - 1` up is sharing it with
/// each number in turn.
proof fn lemma_sharing_sum(
    counts: Seq<u64>,
    hands: Seq<Seq<Card>>,
    board: Seq<Card>,
    variant: Variant,
    h: int,
    i: int,
    measure: spec_fn(spec_fn(Seq<Card>) -> bool) -> int,
)
    requires
        additive(measure),
        0 <= h < hands.len(),
        0 <= i <= hands.len(),
        counts.len() == hands.len(),
        forall|j: int| 0 <= j < counts.len() ==> #[trigger] counts[j] == measure(sharing(hands, board, variant, h, j + 1)),
    ensures
        sum_from(counts, i) == measure(sharing_with(hands, board, variant, h, i + 1)),
    decreases hands.len() - i,
{
    let p = sharing_with(hands, board, variant, h, i + 1);
    if i == hands.len() {
        assert forall|x: Seq<Card>| eval::one(#[trigger] p(x)) == eval::one(p(x)) + eval::one(p(x)) by {
            lemma_winner_count(hands, board + x, variant, hands.len() as int);
        }
        assert(measure(p) == measure(p) + measure(p));
    } else {
        lemma_sharing_sum(counts, hands, board, variant, h, i + 1, measure);
        let q = sharing(hands, board, variant, h, i + 1);
        let r = sharing_with(hands, board, variant, h, i + 2);
        assert forall|x: Seq<Card>| eval::one(#[trigger] p(x)) == eval::one(q(x)) + eval::one(r(x)) by {}
        assert(measure(p) == measure(q) + measure(r));
        assert(counts[i] == measure(sharing(hands, board, variant, h, i + 1)));
    }
}

/// Some trials at most are among all.
proof fn lemma_measure_at_most(
    measure: spec_fn(spec_fn(Seq<Card>) -> bool) -> int,
    p: spec_fn(Seq<Card>) -> bool,
)
    requires
        additive(measure),
        forall|q: spec_fn(Seq<Card>) -> bool| #[trigger] measure(q) >= 0,
    ensures
        measure(p) <= measure(any_runout()),
{
    let rest = |x: Seq<Card>| !p(x);
    let any = any_runout();
    assert forall|x: Seq<Card>| eval::one(#[trigger] any(x)) == eval::one(p(x)) + eval::one(rest(x)) by {}
    assert(measure(any) == measure(p) + measure(rest));
}

/// Turns the tallies into a result for each hand.
fn finish(
    tallies: Vec<Vec<u64>>,
    trials: u64,
    hands: Ghost<Seq<Seq<Card>>>,
    board: Ghost<Seq<Card>>,
    variant: Ghost<Variant>,
    measure: Ghost<spec_fn(spec_fn(Seq<Card>) -> bool) -> int>,
) -> (equities: Vec<Equity>)
    requires
        hands@.len() >= 2,
        square(tallies@, hands@.len() as int),
        additive(measure@),
        forall|q: spec_fn(Seq<Card>) -> bool| #[trigger] (measure@)(q) >= 0,
        trials == (measure@)(any_runout()),
        forall|h: int, i: int|
            0 <= h < hands@.len() && 0 <= i < hands@.len() ==> #[trigger] tally_counts(tallies@, h, i) == (measure@)(
                sharing(hands@, board@, variant@, h, i + 1),
            ),
    ensures
        measured(equities@, hands@, board@, variant@, measure@),
{
    let n: usize = tallies.len();
    let ghost rows = tallies@;
    let mut equities: Vec<Equity> = Vec::new();
    for row in it: tallies
        invariant
            n == hands@.len() >= 2,
            it.seq() == rows,
            square(rows, n as int),
            additive(measure@),
            forall|q: spec_fn(Seq<Card>) -> bool| #[trigger] (measure@)(q) >= 0,
            trials == (measure@)(any_runout()),
            forall|h: int, i: int|
                0 <= h < n && 0 <= i < n ==> #[trigger] tally_counts(rows, h, i) == (measure@)(
                    sharing(hands@, board@, variant@, h, i + 1),
                ),
            equities@.len() == it.index(),
            forall|h: int|
                0 <= h < equities@.len() ==> {
                    &&& (#[trigger] equities@[h]).trials == (measure@)(any_runout())
                    &&& equities@[h].wins == (measure@)(sharing(hands@, board@, variant@, h, 1))
                    &&& equities@[h].ties == (measure@)(sharing_with(hands@, board@, variant@, h, 2))
                    &&& equities@[h].shared@.len() == n
                    &&& forall|i: int|
                        0 <= i < n ==> #[trigger] equities@[h].shared@[i] == (measure@)(
                            sharing(hands@, board@, variant@, h, i + 1),
                        )
                },
    {
        let ghost h = it.index() as int;
        proof {
            assert(rows[h] == row);
            assert forall|i: int| 0 <= i < n implies #[trigger] row@[i] == (measure@)(
                sharing(hands@, board@, variant@, h, i + 1),
            ) by {
                assert(tally_counts(rows, h, i) == row@[i]);
            }
            lemma_sharing_sum(row@, hands@, board@, variant@, h, 1, measure@);
            lemma_measure_at_most(measure@, sharing_with(hands@, board@, variant@, h, 2));
        }
        let ties: u64 = sum_tail(&row, 1);
        let wins: u64 = row[0];
        equities.push(Equity { wins, ties, trials, shared: row });
    }
    equities
}

/// The sum of the counts from position `k` on.
fn sum_tail(counts: &Vec<u64>, k: usize) -> (total: u64)
    requires
        k <= counts@.len(),
        sum_from(counts@, k as int) <= u64::MAX,
    ensures
        total == sum_from(counts@, k as int),
{
    let mut total: u64 = 0;
    let mut i: usize = counts.len();
    while i > k
        invariant
            k <= i <= counts@.len(),
            total == sum_from(counts@, i as int),
            sum_from(counts@, k as int) <= u64::MAX,
        decreases i,
    {
        i = i - 1;
        proof {
            lemma_sum_from_grows(counts@, k as int, i as int);
        }
        total = total + counts[i];
    }
    total
}

proof fn lemma_sum_from_grows(counts: Seq<u64>, j: int, k: int)
    requires
        0 <= j <= k <= counts.len(),
    ensures
        0 <= sum_from(counts, k) <= sum_from(counts, j),
    decreases counts.len() - j,
{
    if j < k {
        lemma_sum_from_grows(counts, j + 1, k);
    } else if k < counts.len() {
        lemma_sum_from_grows(counts, j + 1, k + 1);
    }
}

/// The counts over every runout are small enough to double.
pub(crate) proof fn lemma_counts_fit(hands: Seq<Seq<Card>>, board: Seq<Card>, variant: Variant, deck: Seq<Card>, h: int)
    requires
        deck_dealt(hands, board, variant) == Ok::<Seq<Card>, EquityError>(deck),
    ensures
        ({
            let counted = every_runout(deck, 5 - board.len());
            &&& 0 <= counted(any_runout()) <= 0x10_0000_0000_0000
            &&& forall|k: int|
                0 <= #[trigger] counted(sharing(hands, board, variant, h, k)) <= counted(any_runout())
        }),
{
    lemma_laid_out(hands, board, variant);
    let missing = 5 - board.len();
    let counted = every_runout(deck, missing);
    lemma_runouts_bound(deck, 0, missing, seq![], any_runout());
    lemma_doublings(deck.len() as int);
    assert forall|k: int| 0 <= #[trigger] counted(sharing(hands, board, variant, h, k)) <= counted(any_runout()) by {
        lemma_runouts_bound(deck, 0, missing, seq![], sharing(hands, board, variant, h, k));
    }
}

/// Exact equity by going through every remaining board runout.
pub fn exact(hands: &[&[Card]], board: &[Card], variant: Variant) -> (result: Result<Vec<Equity>, EquityError>)
    ensures
        match deck_left(holdings(hands@), board@, variant) {
            Ok(deck) => result matches Ok(equities) && measured(
                equities@,
                holdings(hands@),
                board@,
                variant,
                every_runout(deck, 5 - board@.len()),
            ),
            Err(error) => result == Err::<Vec<Equity>, EquityError>(error),
        },
{
    match prepare(hands, board, variant) {
        Err(error) => Err(error),
        Ok(deck) => Ok(count_runouts(hands, board, variant, &deck)),
    }
}

pub(crate) fn count_runouts(hands: &[&[Card]], board: &[Card], variant: Variant, deck: &Vec<Card>) -> (equities: Vec<Equity>)
    requires
        laid_out(holdings(hands@), board@, deck@, variant),
    ensures
        measured(equities@, holdings(hands@), board@, variant, every_runout(deck@, 5 - board@.len())),
{
    let mut tallies = fresh_tallies(hands.len());
    let mut trials: u64 = 0;
    let mut chosen: Vec<Card> = Vec::new();
    let ghost missing = 5 - board@.len();
    let ghost measure = every_runout(deck@, missing);
    proof {
        lemma_runouts_bound(deck@, 0, missing, seq![], any_runout());
        lemma_doublings(deck@.len() as int);
        assert(chosen@ =~= seq![]);
    }
    enumerate(hands, board, variant, deck, 0, &mut chosen, &mut tallies, &mut trials);
    proof {
        lemma_every_runout_additive(deck@, missing);
        assert forall|q: spec_fn(Seq<Card>) -> bool| #[trigger] measure(q) >= 0 by {
            lemma_runouts_bound(deck@, 0, missing, seq![], q);
        }
    }
    finish(tallies, trials, Ghost(holdings(hands@)), Ghost(board@), Ghost(variant), Ghost(measure))
}

/// How many ways there are to choose `k` of `n` things.
pub open spec fn ways(n: int, k: int) -> int
    decreases n,
{
    if k < 0 || n < k {
        0
    } else if k == 0 {
        1
    } else {
        ways(n - 1, k - 1) + ways(n - 1, k)
    }
}

proof fn lemma_ways_positive(n: int, k: int)
    requires
        0 <= k <= n,
    ensures
        ways(n, k) >= 1,
        k == n ==> ways(n, k) == 1,
    decreases n,
{
    if k > 0 && n > 0 {
        lemma_ways_positive(n - 1, k - 1);
        if k < n {
            lemma_ways_positive(n - 1, k);
        } else {
            assert(ways(n - 1, k) == 0);
        }
    }
}

/// Choosing what to take is choosing what to leave.
proof fn lemma_ways_mirror(n: int, k: int)
    requires
        0 <= k <= n,
    ensures
        ways(n, k) == ways(n, n - k),
    decreases n,
{
    if k == 0 {
        lemma_ways_positive(n, n);
    } else if k == n {
        lemma_ways_positive(n, n);
    } else {
        lemma_ways_mirror(n - 1, k - 1);
        lemma_ways_mirror(n - 1, k);
    }
}

/// Choosing one more: each choice of `k + 1` arises from `k + 1` choices of `k`.
proof fn lemma_ways_step(n: int, k: int)
    requires
        0 <= k < n,
    ensures
        (k + 1) * ways(n, k + 1) == (n - k) * ways(n, k),
    decreases n,
{
    if k == 0 {
        if n > 1 {
            lemma_ways_step(n - 1, 0);
        }
        assert(ways(n, 0) == 1);
        lemma_ways_one(n);
    } else {
        let a = ways(n - 1, k - 1);
        let b = ways(n - 1, k);
        let c = ways(n - 1, k + 1);
        lemma_ways_step(n - 1, k - 1);
        assert(k * b == (n - k) * a);
        if k < n - 1 {
            lemma_ways_step(n - 1, k);
            assert((k + 1) * c == (n - 1 - k) * b);
        } else {
            assert(c == 0);
            assert((k + 1) * c == (n - 1 - k) * b) by (nonlinear_arith)
                requires
                    c == 0,
                    n - 1 - k == 0,
            ;
        }
        assert((k + 1) * (b + c) == (n - k) * (a + b)) by (nonlinear_arith)
            requires
                k * b == (n - k) * a,
                (k + 1) * c == (n - 1 - k) * b,
        ;
    }
}

proof fn lemma_ways_one(n: int)
    requires
        n >= 1,
    ensures
        ways(n, 1) == n,
    decreases n,
{
    assert(ways(n - 1, 0) == 1);
    if n > 1 {
        lemma_ways_one(n - 1);
    } else {
        assert(ways(0, 1) == 0);
    }
}

/// Up to the middle, choosing more can be done in more ways.
proof fn lemma_ways_rise(n: int, j: int, k: int)
    requires
        0 <= j <= k,
        2 * k <= n,
    ensures
        ways(n, j) <= ways(n, k),
    decreases k - j,
{
    if j < k {
        lemma_ways_rise(n, j, k - 1);
        lemma_ways_step(n, k - 1);
        let a = ways(n, k - 1);
        let b = ways(n, k);
        lemma_ways_positive(n, k - 1);
        assert(a <= b) by (nonlinear_arith)
            requires
                k * b == (n - (k - 1)) * a,
                k >= 1,
                n - (k - 1) >= k,
                a >= 0,
        ;
    }
}

/// `n choose k`, saturating rather than overflowing.
pub fn binomial(n: u64, k: u64) -> (result: u64)
    ensures
        result == (if ways(n as int, k as int) <= u64::MAX {
            ways(n as int, k as int)
        } else {
            u64::MAX as int
        }),
{
    if k > n {
        return 0;
    }
    let fewer: u64 = if k < n - k {
        k
    } else {
        n - k
    };
    proof {
        lemma_ways_mirror(n as int, k as int);
    }
    let mut result: u64 = 1;
    let mut step: u64 = 0;
    while step < fewer
        invariant
            step <= fewer,
            2 * fewer <= n,
            fewer == k || fewer == n - k,
            k <= n,
            ways(n as int, k as int) == ways(n as int, fewer as int),
            result == ways(n as int, step as int),
        decreases fewer - step,
    {
        proof {
            let a = result as int;
            let b = n - step;
            assert(a * b <= 0xFFFF_FFFF_FFFF_FFFF * 0xFFFF_FFFF_FFFF_FFFF) by (nonlinear_arith)
                requires
                    0 <= a <= 0xFFFF_FFFF_FFFF_FFFF,
                    0 <= b <= 0xFFFF_FFFF_FFFF_FFFF,
            ;
        }
        let product: u128 = (result as u128) * ((n - step) as u128);
        let next: u128 = product / ((step + 1) as u128);
        proof {
            lemma_ways_step(n as int, step as int);
            let w = ways(n as int, step + 1);
            let d = step + 1;
            assert(product == d * w) by {
                let a = result as int;
                let b = n - step;
                assert(a * b == b * a) by (nonlinear_arith);
            }
            vstd::arithmetic::div_mod::lemma_div_multiples_vanish(w, d);
            assert(next == w);
            lemma_ways_rise(n as int, step + 1, fewer as int);
        }
        if next > 0xFFFF_FFFF_FFFF_FFFF {
            return u64::MAX;
        }
        result = next as u64;
        step = step + 1;
    }
    result
}

/// A board can be completed from the deck in as many ways as there are to
/// choose the missing cards.
pub proof fn law_runouts_are_counted_by_choice(deck: Seq<Card>, start: int, needed: int, chosen: Seq<Card>)
    requires
        0 <= start <= deck.len(),
        0 <= needed,
    ensures
        runouts(deck, start, needed, chosen, any_runout()) == ways(deck.len() - start, needed),
    decreases deck.len() - start,
{
    if needed > 0 && start < deck.len() {
        law_runouts_are_counted_by_choice(deck, start + 1, needed - 1, chosen.push(deck[start]));
        law_runouts_are_counted_by_choice(deck, start + 1, needed, chosen);
        if needed > deck.len() - start {
            lemma_ways_none(deck.len() - start - 1, needed - 1);
        }
    }
}

proof fn lemma_ways_none(n: int, k: int)
    requires
        n < k,
    ensures
        ways(n, k) == 0,
{
}

/// The runouts on which exactly `k` hands are best.
pub open spec fn split_ways(hands: Seq<Seq<Card>>, board: Seq<Card>, variant: Variant, k: int) -> spec_fn(Seq<Card>) -> bool {
    |runout: Seq<Card>| winner_count(hands, board + runout, variant, hands.len() as int) == k
}

/// The runouts on which the first `j` hands are each one of exactly `k` best,
/// counted once for each of them.
pub open spec fn shared_by(
    deck: Seq<Card>,
    start: int,
    needed: int,
    chosen: Seq<Card>,
    hands: Seq<Seq<Card>>,
    board: Seq<Card>,
    variant: Variant,
    k: int,
    j: int,
) -> int
    decreases j,
{
    if j <= 0 {
        0
    } else {
        shared_by(deck, start, needed, chosen, hands, board, variant, k, j - 1) + runouts(
            deck,
            start,
            needed,
            chosen,
            sharing(hands, board, variant, j - 1, k),
        )
    }
}

proof fn lemma_shared_by_base(
    deck: Seq<Card>,
    start: int,
    chosen: Seq<Card>,
    hands: Seq<Seq<Card>>,
    board: Seq<Card>,
    variant: Variant,
    k: int,
    j: int,
)
    requires
        0 <= j <= hands.len(),
    ensures
        shared_by(deck, start, 0, chosen, hands, board, variant, k, j) == (if split_ways(hands, board, variant, k)(
            chosen,
        ) {
            winner_count(hands, board + chosen, variant, j)
        } else {
            0
        }),
    decreases j,
{
    if j > 0 {
        lemma_shared_by_base(deck, start, chosen, hands, board, variant, k, j - 1);
    }
}

proof fn lemma_shared_by_step(
    deck: Seq<Card>,
    start: int,
    needed: int,
    chosen: Seq<Card>,
    hands: Seq<Seq<Card>>,
    board: Seq<Card>,
    variant: Variant,
    k: int,
    j: int,
)
    requires
        0 <= j <= hands.len(),
        needed > 0,
        0 <= start < deck.len(),
    ensures
        shared_by(deck, start, needed, chosen, hands, board, variant, k, j) == shared_by(
            deck,
            start + 1,
            needed - 1,
            chosen.push(deck[start]),
            hands,
            board,
            variant,
            k,
            j,
        ) + shared_by(deck, start + 1, needed, chosen, hands, board, variant, k, j),
    decreases j,
{
    if j > 0 {
        lemma_shared_by_step(deck, start, needed, chosen, hands, board, variant, k, j - 1);
    }
}

proof fn lemma_shared_by_none(
    deck: Seq<Card>,
    start: int,
    needed: int,
    chosen: Seq<Card>,
    hands: Seq<Seq<Card>>,
    board: Seq<Card>,
    variant: Variant,
    k: int,
    j: int,
)
    requires
        0 <= j <= hands.len(),
        needed > 0,
        start >= deck.len(),
    ensures
        shared_by(deck, start, needed, chosen, hands, board, variant, k, j) == 0,
    decreases j,
{
    if j > 0 {
        lemma_shared_by_none(deck, start, needed, chosen, hands, board, variant, k, j - 1);
    }
}

/// A pot split `k` ways has `k` takers: over all the hands, the runouts shared
/// `k` ways are counted `k` times each.
pub proof fn law_a_split_pot_has_its_takers(
    deck: Seq<Card>,
    start: int,
    needed: int,
    chosen: Seq<Card>,
    hands: Seq<Seq<Card>>,
    board: Seq<Card>,
    variant: Variant,
    k: int,
)
    requires
        0 <= start <= deck.len(),
        0 <= needed,
    ensures
        shared_by(deck, start, needed, chosen, hands, board, variant, k, hands.len() as int) == k * runouts(
            deck,
            start,
            needed,
            chosen,
            split_ways(hands, board, variant, k),
        ),
    decreases deck.len() - start,
{
    let n = hands.len() as int;
    let p = split_ways(hands, board, variant, k);
    if needed == 0 {
        lemma_shared_by_base(deck, start, chosen, hands, board, variant, k, n);
        assert(k * 1 == k && k * 0 == 0);
    } else if start < deck.len() {
        lemma_shared_by_step(deck, start, needed, chosen, hands, board, variant, k, n);
        law_a_split_pot_has_its_takers(
            deck,
            start + 1,
            needed - 1,
            chosen.push(deck[start]),
            hands,
            board,
            variant,
            k,
        );
        law_a_split_pot_has_its_takers(deck, start + 1, needed, chosen, hands, board, variant, k);
        let a = runouts(deck, start + 1, needed - 1, chosen.push(deck[start]), p);
        let b = runouts(deck, start + 1, needed, chosen, p);
        assert(k * (a + b) == k * a + k * b) by (nonlinear_arith);
    } else {
        lemma_shared_by_none(deck, start, needed, chosen, hands, board, variant, k, n);
        assert(k * 0 == 0);
    }
}

/// The trials split one way, two ways, and so on up to `k` ways.
pub open spec fn split_up_to(
    hands: Seq<Seq<Card>>,
    board: Seq<Card>,
    variant: Variant,
    measure: spec_fn(spec_fn(Seq<Card>) -> bool) -> int,
    k: int,
) -> int
    decreases k,
{
    if k <= 0 {
        0
    } else {
        split_up_to(hands, board, variant, measure, k - 1) + measure(split_ways(hands, board, variant, k))
    }
}

proof fn lemma_split_up_to(
    hands: Seq<Seq<Card>>,
    board: Seq<Card>,
    variant: Variant,
    measure: spec_fn(spec_fn(Seq<Card>) -> bool) -> int,
    k: int,
)
    requires
        0 <= k,
        hands.len() > 0,
        additive(measure),
    ensures
        split_up_to(hands, board, variant, measure, k) == measure(split_at_most(hands, board, variant, k)),
    decreases k,
{
    let p = split_at_most(hands, board, variant, k);
    if k == 0 {
        assert forall|x: Seq<Card>| eval::one(#[trigger] p(x)) == eval::one(p(x)) + eval::one(p(x)) by {
            lemma_some_winner(hands, board + x, variant);
        }
        assert(measure(p) == measure(p) + measure(p));
    } else {
        lemma_split_up_to(hands, board, variant, measure, k - 1);
        let q = split_at_most(hands, board, variant, k - 1);
        let r = split_ways(hands, board, variant, k);
        assert forall|x: Seq<Card>| eval::one(#[trigger] p(x)) == eval::one(q(x)) + eval::one(r(x)) by {}
        assert(measure(p) == measure(q) + measure(r));
    }
}

/// The runouts on which at most `k` hands are best.
pub open spec fn split_at_most(hands: Seq<Seq<Card>>, board: Seq<Card>, variant: Variant, k: int) -> spec_fn(Seq<Card>) -> bool {
    |runout: Seq<Card>| winner_count(hands, board + runout, variant, hands.len() as int) <= k
}

/// Some hand is best on every board.
proof fn lemma_some_winner(hands: Seq<Seq<Card>>, board: Seq<Card>, variant: Variant)
    requires
        hands.len() > 0,
    ensures
        winner_count(hands, board, variant, hands.len() as int) >= 1,
{
    let h = best_hand(hands, board, variant, hands.len() as int);
    assert(is_winner(hands, board, variant, h));
    lemma_winner_count(hands, board, variant, hands.len() as int);
}

proof fn best_hand(hands: Seq<Seq<Card>>, board: Seq<Card>, variant: Variant, k: int) -> (h: int)
    requires
        0 < k <= hands.len(),
    ensures
        0 <= h < k,
        forall|g: int|
            0 <= g < k ==> #[trigger] holding_strength(variant, hands[g], board) <= holding_strength(
                variant,
                hands[h],
                board,
            ),
    decreases k,
{
    if k == 1 {
        0
    } else {
        let h = best_hand(hands, board, variant, k - 1);
        if holding_strength(variant, hands[k - 1], board) > holding_strength(variant, hands[h], board) {
            k - 1
        } else {
            h
        }
    }
}

/// Every trial is split some number of ways between one and all hands, however
/// the trials are counted.
pub proof fn law_every_pot_is_split_some_way(
    hands: Seq<Seq<Card>>,
    board: Seq<Card>,
    variant: Variant,
    measure: spec_fn(spec_fn(Seq<Card>) -> bool) -> int,
)
    requires
        hands.len() > 0,
        additive(measure),
    ensures
        split_up_to(hands, board, variant, measure, hands.len() as int) == measure(any_runout()),
{
    lemma_split_up_to(hands, board, variant, measure, hands.len() as int);
    let p = split_at_most(hands, board, variant, hands.len() as int);
    let none = |x: Seq<Card>| false;
    let any = any_runout();
    assert forall|x: Seq<Card>| eval::one(#[trigger] any(x)) == eval::one(p(x)) + eval::one(none(x)) by {
        lemma_winner_count(hands, board + x, variant, hands.len() as int);
    }
    assert forall|x: Seq<Card>| eval::one(#[trigger] none(x)) == eval::one(none(x)) + eval::one(none(x)) by {}
    assert(measure(any) == measure(p) + measure(none));
    assert(measure(none) == measure(none) + measure(none));
}

/// Whether a pot of so many parts can be cut evenly between any number of takers
/// up to `n`.
pub open spec fn cuts_evenly(whole: int, n: int) -> bool {
    forall|k: int| 1 <= k <= n ==> k * #[trigger] (whole / k) == whole
}

/// What a hand takes in trials shared with fewer than `c` others, where each
/// pot is `whole` parts and is cut evenly between its takers.
pub open spec fn parts_taken(shared: Seq<u64>, whole: int, c: int) -> int
    decreases c,
{
    if c <= 0 {
        0
    } else {
        parts_taken(shared, whole, c - 1) + shared[c - 1] * (whole / c)
    }
}

/// What the first `j` hands take together in trials shared with fewer than `c`
/// others.
pub open spec fn parts_paid(equities: Seq<Equity>, whole: int, j: int, c: int) -> int
    decreases j,
{
    if j <= 0 {
        0
    } else {
        parts_paid(equities, whole, j - 1, c) + parts_taken(equities[j - 1].shared@, whole, c)
    }
}

/// How often the first `j` hands are each one of exactly `k` best, added up.
pub open spec fn takers(
    hands: Seq<Seq<Card>>,
    board: Seq<Card>,
    variant: Variant,
    measure: spec_fn(spec_fn(Seq<Card>) -> bool) -> int,
    k: int,
    j: int,
) -> int
    decreases j,
{
    if j <= 0 {
        0
    } else {
        takers(hands, board, variant, measure, k, j - 1) + measure(sharing(hands, board, variant, j - 1, k))
    }
}

proof fn lemma_parts_paid_step(
    equities: Seq<Equity>,
    hands: Seq<Seq<Card>>,
    board: Seq<Card>,
    variant: Variant,
    measure: spec_fn(spec_fn(Seq<Card>) -> bool) -> int,
    whole: int,
    j: int,
    c: int,
)
    requires
        measured(equities, hands, board, variant, measure),
        0 <= j <= hands.len(),
        0 < c <= hands.len(),
    ensures
        parts_paid(equities, whole, j, c) == parts_paid(equities, whole, j, c - 1) + takers(
            hands,
            board,
            variant,
            measure,
            c,
            j,
        ) * (whole / c),
    decreases j,
{
    let each = whole / c;
    if j > 0 {
        lemma_parts_paid_step(equities, hands, board, variant, measure, whole, j - 1, c);
        let before = takers(hands, board, variant, measure, c, j - 1);
        let own = measure(sharing(hands, board, variant, j - 1, c));
        assert(equities[j - 1].shared@[c - 1] == own);
        assert((before + own) * each == before * each + own * each) by (nonlinear_arith);
    } else {
        assert(0 * each == 0);
    }
}

proof fn lemma_parts_paid(
    equities: Seq<Equity>,
    hands: Seq<Seq<Card>>,
    board: Seq<Card>,
    variant: Variant,
    measure: spec_fn(spec_fn(Seq<Card>) -> bool) -> int,
    whole: int,
    c: int,
)
    requires
        cuts_evenly(whole, hands.len() as int),
        measured(equities, hands, board, variant, measure),
        0 <= c <= hands.len(),
        forall|k: int|
            1 <= k <= hands.len() ==> #[trigger] takers(hands, board, variant, measure, k, hands.len() as int) == k
                * measure(split_ways(hands, board, variant, k)),
    ensures
        parts_paid(equities, whole, hands.len() as int, c) == whole * split_up_to(
            hands,
            board,
            variant,
            measure,
            c,
        ),
    decreases c,
{
    let n = hands.len() as int;
    if c == 0 {
        lemma_nothing_paid(equities, whole, n);
        assert(whole * 0 == 0);
    } else {
        lemma_parts_paid(equities, hands, board, variant, measure, whole, c - 1);
        lemma_parts_paid_step(equities, hands, board, variant, measure, whole, n, c);
        assert(c * (whole / c) == whole);
        let split = measure(split_ways(hands, board, variant, c));
        let before = split_up_to(hands, board, variant, measure, c - 1);
        let each = whole / c;
        assert(takers(hands, board, variant, measure, c, n) == c * split);
        assert((c * split) * each == whole * split && whole * (before + split) == whole * before + whole * split)
            by (nonlinear_arith)
            requires
                c * each == whole,
        ;
    }
}

proof fn lemma_nothing_paid(equities: Seq<Equity>, whole: int, j: int)
    ensures
        parts_paid(equities, whole, j, 0) == 0,
    decreases j,
{
    if j > 0 {
        lemma_nothing_paid(equities, whole, j - 1);
    }
}

proof fn lemma_takers_of_runouts(
    deck: Seq<Card>,
    missing: int,
    hands: Seq<Seq<Card>>,
    board: Seq<Card>,
    variant: Variant,
    k: int,
    j: int,
)
    ensures
        takers(hands, board, variant, every_runout(deck, missing), k, j) == shared_by(
            deck,
            0,
            missing,
            seq![],
            hands,
            board,
            variant,
            k,
            j,
        ),
    decreases j,
{
    if j > 0 {
        lemma_takers_of_runouts(deck, missing, hands, board, variant, k, j - 1);
    }
}

/// Exact equities always sum to one: cut every pot into so many parts that any
/// number of the hands can share it evenly, and over all the ways the board can
/// come the hands take together every part of every pot.
pub proof fn law_exact_shares_sum_to_one(
    equities: Seq<Equity>,
    hands: Seq<Seq<Card>>,
    board: Seq<Card>,
    variant: Variant,
    deck: Seq<Card>,
    missing: int,
    whole: int,
)
    requires
        hands.len() > 0,
        cuts_evenly(whole, hands.len() as int),
        0 <= missing,
        measured(equities, hands, board, variant, every_runout(deck, missing)),
    ensures
        parts_paid(equities, whole, hands.len() as int, hands.len() as int) == whole * equities[0].trials,
{
    let n = hands.len() as int;
    let measure = every_runout(deck, missing);
    assert forall|k: int| 1 <= k <= n implies #[trigger] takers(hands, board, variant, measure, k, n) == k * measure(
        split_ways(hands, board, variant, k),
    ) by {
        lemma_takers_of_runouts(deck, missing, hands, board, variant, k, n);
        law_a_split_pot_has_its_takers(deck, 0, missing, seq![], hands, board, variant, k);
    }
    lemma_every_runout_additive(deck, missing);
    lemma_parts_paid(equities, hands, board, variant, measure, whole, n);
    law_every_pot_is_split_some_way(hands, board, variant, measure);
}

/// A deck after the first `slots` picks of a draw: the card `picks[i]` places
/// on from place `i` changes places with the one in place `i`.
pub open spec fn dealt(deck: Seq<Card>, picks: Seq<usize>, slots: int) -> Seq<Card>
    decreases slots,
{
    if slots <= 0 {
        deck
    } else {
        let before = dealt(deck, picks, slots - 1);
        swapped(before, slots - 1, slots - 1 + picks[slots - 1])
    }
}

pub open spec fn swapped(deck: Seq<Card>, i: int, j: int) -> Seq<Card> {
    deck.update(i, deck[j]).update(j, deck[i])
}

/// The deck after the first `t` draws, each made from the deck as the one
/// before left it.
pub open spec fn deck_after(deck: Seq<Card>, draws: Seq<Vec<usize>>, missing: int, t: int) -> Seq<Card>
    decreases t,
{
    if t <= 0 {
        deck
    } else {
        dealt(deck_after(deck, draws, missing, t - 1), draws[t - 1]@, missing)
    }
}

/// How many of the first `t` draws give a runout that satisfies a condition.
pub open spec fn draws_where(
    deck: Seq<Card>,
    draws: Seq<Vec<usize>>,
    missing: int,
    t: int,
    p: spec_fn(Seq<Card>) -> bool,
) -> int
    decreases t,
{
    if t <= 0 {
        0
    } else {
        draws_where(deck, draws, missing, t - 1, p) + eval::one(
            p(deck_after(deck, draws, missing, t).take(missing)),
        )
    }
}

/// Counting the draws of a sample.
pub open spec fn every_draw(deck: Seq<Card>, draws: Seq<Vec<usize>>, missing: int) -> spec_fn(
    spec_fn(Seq<Card>) -> bool,
) -> int {
    |p: spec_fn(Seq<Card>) -> bool| draws_where(deck, draws, missing, draws.len() as int, p)
}

/// Whether every draw picks as many cards as the board is missing, each from
/// the part of the deck not yet drawn.
pub open spec fn proper_draws(deck: Seq<Card>, draws: Seq<Vec<usize>>, missing: int) -> bool {
    forall|t: int, i: int|
        0 <= t < draws.len() && 0 <= i < missing ==> (#[trigger] draws[t]).len() == missing && #[trigger] draws[t]@[i]
            < deck.len() - i
}

/// Whether every draw has as many picks as the board is missing cards.
pub open spec fn full_draws(draws: Seq<Vec<usize>>, missing: int) -> bool {
    forall|t: int| 0 <= t < draws.len() ==> (#[trigger] draws[t])@.len() == missing
}

proof fn lemma_swap_laid_out(hands: Seq<Seq<Card>>, board: Seq<Card>, deck: Seq<Card>, variant: Variant, i: int, j: int)
    requires
        laid_out(hands, board, deck, variant),
        0 <= i <= j < deck.len(),
    ensures
        laid_out(hands, board, swapped(deck, i, j), variant),
{
    let after = swapped(deck, i, j);
    let n = board.len() as int;
    let old_rest = board + deck;
    let rest = board + after;
    let place = |x: int|
        if x == n + i {
            n + j
        } else if x == n + j {
            n + i
        } else {
            x
        };
    assert forall|x: int| 0 <= x < rest.len() implies #[trigger] rest[x] == old_rest[place(x)] && 0 <= place(x)
        < old_rest.len() by {}
    assert forall|x: int, y: int| 0 <= x < rest.len() && 0 <= y < rest.len() && x != y implies rest[x] != rest[y] by {
        assert(rest[x] == old_rest[place(x)]);
        assert(rest[y] == old_rest[place(y)]);
        assert(place(x) != place(y));
    }
    assert forall|h: int| 0 <= h < hands.len() implies apart(#[trigger] hands[h], rest) by {
        assert(apart(hands[h], old_rest));
        assert forall|x: int, y: int| 0 <= x < hands[h].len() && 0 <= y < rest.len() implies #[trigger] hands[h][x]
            != #[trigger] rest[y] by {
            assert(rest[y] == old_rest[place(y)]);
        }
    }
}

proof fn lemma_draws_add(
    deck: Seq<Card>,
    draws: Seq<Vec<usize>>,
    missing: int,
    t: int,
    p: spec_fn(Seq<Card>) -> bool,
    q: spec_fn(Seq<Card>) -> bool,
    r: spec_fn(Seq<Card>) -> bool,
)
    requires
        forall|x: Seq<Card>| eval::one(#[trigger] p(x)) == eval::one(q(x)) + eval::one(r(x)),
    ensures
        draws_where(deck, draws, missing, t, p) == draws_where(deck, draws, missing, t, q) + draws_where(
            deck,
            draws,
            missing,
            t,
            r,
        ),
    decreases t,
{
    if t > 0 {
        lemma_draws_add(deck, draws, missing, t - 1, p, q, r);
        let x = deck_after(deck, draws, missing, t).take(missing);
        assert(eval::one(p(x)) == eval::one(q(x)) + eval::one(r(x)));
    }
}

proof fn lemma_draws_bound(deck: Seq<Card>, draws: Seq<Vec<usize>>, missing: int, t: int, p: spec_fn(Seq<Card>) -> bool)
    requires
        0 <= t,
    ensures
        0 <= draws_where(deck, draws, missing, t, p) <= t,
        draws_where(deck, draws, missing, t, any_runout()) == t,
    decreases t,
{
    if t > 0 {
        lemma_draws_bound(deck, draws, missing, t - 1, p);
    }
}

proof fn lemma_every_draw_additive(deck: Seq<Card>, draws: Seq<Vec<usize>>, missing: int)
    ensures
        additive(every_draw(deck, draws, missing)),
{
    let measure = every_draw(deck, draws, missing);
    assert forall|p: spec_fn(Seq<Card>) -> bool, q: spec_fn(Seq<Card>) -> bool, r: spec_fn(Seq<Card>) -> bool|
        #![trigger measure(p), measure(q), measure(r)]
        (forall|x: Seq<Card>| eval::one(#[trigger] p(x)) == eval::one(q(x)) + eval::one(r(x))) implies measure(p)
        == measure(q) + measure(r) by {
        lemma_draws_add(deck, draws, missing, draws.len() as int, p, q, r);
    }
}

/// How many of the first `t` draws have the first `j` hands each one of exactly
/// `k` best, counted once for each of them.
spec fn drawn_takers(
    deck: Seq<Card>,
    draws: Seq<Vec<usize>>,
    missing: int,
    t: int,
    hands: Seq<Seq<Card>>,
    board: Seq<Card>,
    variant: Variant,
    k: int,
    j: int,
) -> int
    decreases j,
{
    if j <= 0 {
        0
    } else {
        drawn_takers(deck, draws, missing, t, hands, board, variant, k, j - 1) + draws_where(
            deck,
            draws,
            missing,
            t,
            sharing(hands, board, variant, j - 1, k),
        )
    }
}

proof fn lemma_drawn_takers_step(
    deck: Seq<Card>,
    draws: Seq<Vec<usize>>,
    missing: int,
    t: int,
    hands: Seq<Seq<Card>>,
    board: Seq<Card>,
    variant: Variant,
    k: int,
    j: int,
)
    requires
        0 < t,
        0 <= j <= hands.len(),
    ensures
        drawn_takers(deck, draws, missing, t, hands, board, variant, k, j) == drawn_takers(
            deck,
            draws,
            missing,
            t - 1,
            hands,
            board,
            variant,
            k,
            j,
        ) + (if split_ways(hands, board, variant, k)(deck_after(deck, draws, missing, t).take(missing)) {
            winner_count(hands, board + deck_after(deck, draws, missing, t).take(missing), variant, j)
        } else {
            0
        }),
    decreases j,
{
    if j > 0 {
        lemma_drawn_takers_step(deck, draws, missing, t, hands, board, variant, k, j - 1);
    }
}

proof fn lemma_drawn_takers(
    deck: Seq<Card>,
    draws: Seq<Vec<usize>>,
    missing: int,
    t: int,
    hands: Seq<Seq<Card>>,
    board: Seq<Card>,
    variant: Variant,
    k: int,
)
    requires
        0 <= t,
    ensures
        drawn_takers(deck, draws, missing, t, hands, board, variant, k, hands.len() as int) == k * draws_where(
            deck,
            draws,
            missing,
            t,
            split_ways(hands, board, variant, k),
        ),
    decreases t,
{
    let n = hands.len() as int;
    let p = split_ways(hands, board, variant, k);
    if t > 0 {
        lemma_drawn_takers(deck, draws, missing, t - 1, hands, board, variant, k);
        lemma_drawn_takers_step(deck, draws, missing, t, hands, board, variant, k, n);
        let a = draws_where(deck, draws, missing, t - 1, p);
        assert(k * (a + 1) == k * a + k) by (nonlinear_arith);
    } else {
        lemma_nobody_drawn(deck, draws, missing, t, hands, board, variant, k, n);
        assert(k * 0 == 0);
    }
}

proof fn lemma_nobody_drawn(
    deck: Seq<Card>,
    draws: Seq<Vec<usize>>,
    missing: int,
    t: int,
    hands: Seq<Seq<Card>>,
    board: Seq<Card>,
    variant: Variant,
    k: int,
    j: int,
)
    requires
        t <= 0,
    ensures
        drawn_takers(deck, draws, missing, t, hands, board, variant, k, j) == 0,
    decreases j,
{
    if j > 0 {
        lemma_nobody_drawn(deck, draws, missing, t, hands, board, variant, k, j - 1);
    }
}

proof fn lemma_takers_of_draws(
    deck: Seq<Card>,
    draws: Seq<Vec<usize>>,
    missing: int,
    hands: Seq<Seq<Card>>,
    board: Seq<Card>,
    variant: Variant,
    k: int,
    j: int,
)
    ensures
        takers(hands, board, variant, every_draw(deck, draws, missing), k, j) == drawn_takers(
            deck,
            draws,
            missing,
            draws.len() as int,
            hands,
            board,
            variant,
            k,
            j,
        ),
    decreases j,
{
    if j > 0 {
        lemma_takers_of_draws(deck, draws, missing, hands, board, variant, k, j - 1);
    }
}

/// Sampled equities always sum to one, whatever was drawn: over the draws the
/// hands take together every part of every pot.
pub proof fn law_sampled_shares_sum_to_one(
    equities: Seq<Equity>,
    hands: Seq<Seq<Card>>,
    board: Seq<Card>,
    variant: Variant,
    deck: Seq<Card>,
    draws: Seq<Vec<usize>>,
    missing: int,
    whole: int,
)
    requires
        hands.len() > 0,
        cuts_evenly(whole, hands.len() as int),
        measured(equities, hands, board, variant, every_draw(deck, draws, missing)),
    ensures
        parts_paid(equities, whole, hands.len() as int, hands.len() as int) == whole * equities[0].trials,
{
    let n = hands.len() as int;
    let measure = every_draw(deck, draws, missing);
    assert forall|k: int| 1 <= k <= n implies #[trigger] takers(hands, board, variant, measure, k, n) == k * measure(
        split_ways(hands, board, variant, k),
    ) by {
        lemma_takers_of_draws(deck, draws, missing, hands, board, variant, k, n);
        lemma_drawn_takers(deck, draws, missing, draws.len() as int, hands, board, variant, k);
    }
    lemma_every_draw_additive(deck, draws, missing);
    lemma_parts_paid(equities, hands, board, variant, measure, whole, n);
    law_every_pot_is_split_some_way(hands, board, variant, measure);
}

/// Equity over a sample of runouts, one for each draw.
///
/// A draw gives, for each missing board card in turn, how far on from its place
/// in the deck the card drawn lies; the cards drawn stay at the front, so a draw
/// is a partial shuffle. With uniformly random draws this estimates the exact
/// equity.
pub fn monte_carlo(hands: &[&[Card]], board: &[Card], variant: Variant, draws: &[Vec<usize>]) -> (result: Result<Vec<Equity>, EquityError>)
    requires
        deck_left(holdings(hands@), board@, variant) matches Ok(deck) ==> full_draws(draws@, 5 - board@.len())
            && proper_draws(deck, draws@, 5 - board@.len()),
    ensures
        match deck_left(holdings(hands@), board@, variant) {
            Ok(deck) => result matches Ok(equities) && measured(
                equities@,
                holdings(hands@),
                board@,
                variant,
                every_draw(deck, draws@, 5 - board@.len()),
            ),
            Err(error) => result == Err::<Vec<Equity>, EquityError>(error),
        },
{
    let mut deck = match prepare(hands, board, variant) {
        Err(error) => {
            return Err(error);
        },
        Ok(deck) => deck,
    };
    let missing: usize = 5 - board.len();
    let ghost all = holdings(hands@);
    let ghost start = deck@;
    let ghost measure = every_draw(start, draws@, missing as int);
    let mut tallies = fresh_tallies(hands.len());
    let mut t: usize = 0;
    while t < draws.len()
        invariant
            t <= draws@.len(),
            missing == 5 - board@.len(),
            board@.len() <= 5,
            all == holdings(hands@),
            full_draws(draws@, missing as int),
            proper_draws(start, draws@, missing as int),
            deck@.len() == start.len(),
            missing <= start.len(),
            deck@ == deck_after(start, draws@, missing as int, t as int),
            laid_out(all, board@, deck@, variant),
            square(tallies@, hands@.len() as int),
            forall|h: int, i: int|
                0 <= h < hands@.len() && 0 <= i < hands@.len() ==> #[trigger] tally_counts(tallies@, h, i) == draws_where(
                    start,
                    draws@,
                    missing as int,
                    t as int,
                    sharing(all, board@, variant, h, i + 1),
                ),
        decreases draws@.len() - t,
    {
        let ghost before = tallies@;
        let ghost earlier = deck@;
        let picks = &draws[t];
        assert(picks@.len() == missing);
        let mut slot: usize = 0;
        while slot < missing
            invariant
                t < draws@.len(),
                picks == &draws@[t as int],
                slot <= missing,
                missing == picks@.len(),
                missing <= 5,
                board@.len() + missing == 5,
                proper_draws(start, draws@, missing as int),
                full_draws(draws@, missing as int),
                deck@.len() == start.len(),
                deck@ == dealt(earlier, picks@, slot as int),
                laid_out(all, board@, deck@, variant),
            decreases missing - slot,
        {
            assert(draws@[t as int]@[slot as int] < start.len() - slot);
            let pick: usize = slot + picks[slot];
            proof {
                lemma_swap_laid_out(all, board@, deck@, variant, slot as int, pick as int);
            }
            let here = deck[slot];
            let there = deck[pick];
            deck.set(slot, there);
            deck.set(pick, here);
            slot = slot + 1;
        }
        let mut runout: Vec<Card> = Vec::new();
        let mut i: usize = 0;
        while i < missing
            invariant
                i <= missing <= deck@.len(),
                runout@ == deck@.take(i as int),
            decreases missing - i,
        {
            runout.push(deck[i]);
            assert(runout@ =~= deck@.take(i + 1));
            i = i + 1;
        }
        proof {
            let first = deck@.take(missing as int);
            let rest = board@ + deck@;
            assert(drawn_from(deck@, deck@.len() as int, runout@)) by {
                assert(deck@.take(deck@.len() as int) =~= deck@);
                assert forall|x: int, y: int| 0 <= x < first.len() && 0 <= y < first.len() && x != y implies first[x]
                    != first[y] by {
                    assert(rest[board@.len() + x] != rest[board@.len() + y]);
                }
                assert forall|x: int| 0 <= x < first.len() implies deck@.contains(#[trigger] first[x]) by {
                    assert(deck@[x] == first[x]);
                }
            }
            lemma_showable(all, board@, deck@, variant, deck@.len() as int, runout@);
            assert forall|h: int, i: int| 0 <= h < hands@.len() && 0 <= i < hands@.len() implies #[trigger] tally_counts(
                tallies@,
                h,
                i,
            ) < u64::MAX by {
                lemma_draws_bound(
                    start,
                    draws@,
                    missing as int,
                    t as int,
                    sharing(all, board@, variant, h, i + 1),
                );
            }
        }
        let full = joined(board, runout.as_slice());
        score(hands, full.as_slice(), variant, &mut tallies);
        proof {
            assert(runout@ == deck_after(start, draws@, missing as int, t + 1).take(missing as int));
            assert forall|h: int, i: int| 0 <= h < hands@.len() && 0 <= i < hands@.len() implies #[trigger] tally_counts(
                tallies@,
                h,
                i,
            ) == draws_where(start, draws@, missing as int, t + 1, sharing(all, board@, variant, h, i + 1)) by {
                assert(tally_counts(before, h, i) == draws_where(
                    start,
                    draws@,
                    missing as int,
                    t as int,
                    sharing(all, board@, variant, h, i + 1),
                ));
            }
        }
        t = t + 1;
    }
    let trials: u64 = draws.len() as u64;
    proof {
        lemma_every_draw_additive(start, draws@, missing as int);
        assert forall|q: spec_fn(Seq<Card>) -> bool| #[trigger] measure(q) >= 0 by {
            lemma_draws_bound(start, draws@, missing as int, draws@.len() as int, q);
        }
        lemma_draws_bound(start, draws@, missing as int, draws@.len() as int, any_runout());
    }
    Ok(finish(tallies, trials, Ghost(all), Ghost(board@), Ghost(variant), Ghost(measure)))
}

/// Runs [`exact`] when there are at most `max_exact` runouts, otherwise
/// [`monte_carlo`] over the draws given.
pub fn estimate(hands: &[&[Card]], board: &[Card], variant: Variant, max_exact: u64, draws: &[Vec<usize>]) -> (result: Result<Vec<Equity>, EquityError>)
    requires
        deck_left(holdings(hands@), board@, variant) matches Ok(deck) ==> ways(deck.len() as int, 5 - board@.len())
            > max_exact ==> full_draws(draws@, 5 - board@.len()) && proper_draws(deck, draws@, 5 - board@.len()),
    ensures
        match deck_left(holdings(hands@), board@, variant) {
            Ok(deck) => result matches Ok(equities) && measured(
                equities@,
                holdings(hands@),
                board@,
                variant,
                if ways(deck.len() as int, 5 - board@.len()) <= max_exact {
                    every_runout(deck, 5 - board@.len())
                } else {
                    every_draw(deck, draws@, 5 - board@.len())
                },
            ),
            Err(error) => result == Err::<Vec<Equity>, EquityError>(error),
        },
{
    let deck = match prepare(hands, board, variant) {
        Err(error) => {
            return Err(error);
        },
        Ok(deck) => deck,
    };
    let missing: usize = 5 - board.len();
    proof {
        lemma_ways_at_most(deck@.len() as int, missing as int);
        lemma_doublings(deck@.len() as int);
    }
    let combinations: u64 = binomial(deck.len() as u64, missing as u64);
    if combinations <= max_exact {
        Ok(count_runouts(hands, board, variant, &deck))
    } else {
        monte_carlo(hands, board, variant, draws)
    }
}

proof fn lemma_ways_at_most(n: int, k: int)
    ensures
        0 <= ways(n, k) <= doublings(n),
    decreases n,
{
    if k > 0 && n > 0 && k <= n {
        lemma_ways_at_most(n - 1, k - 1);
        lemma_ways_at_most(n - 1, k);
    } else {
        lemma_doublings_grow(n, n);
    }
}

impl EquityError {
    /// The words for the error.
    pub open spec fn words(self) -> Seq<char> {
        match self {
            EquityError::TooFewHands(found) => "need at least 2 hands, got "@ + text::digits(
                found as int,
            ),
            EquityError::WrongHoleCount { hand, found, expected } => "hand "@ + text::digits(
                hand as int,
            ) + " has "@ + text::digits(found as int) + " cards, expected "@ + (if expected.0
                == expected.1 {
                text::digits(expected.0 as int)
            } else {
                text::digits(expected.0 as int) + " to "@ + text::digits(expected.1 as int)
            }),
            EquityError::BoardTooLong(found) => "board has "@ + text::digits(found as int)
                + " cards, at most 5 allowed"@,
            EquityError::DuplicateCard(card) => "card "@ + card::card_text(card)
                + " appears more than once"@,
            EquityError::DeckExhausted { needed, available } => "need "@ + text::digits(
                needed as int,
            ) + " more board cards but only "@ + text::digits(available as int) + " remain"@,
        }
    }

    /// What was wrong, in words.
    pub fn to_string(&self) -> (words: String)
        ensures
            words@ == self.words(),
    {
        let mut words: String = String::new();
        assert(words@ =~= Seq::empty());
        match self {
            EquityError::TooFewHands(found) => {
                words.append("need at least 2 hands, got ");
                append_number(&mut words, *found);
            },
            EquityError::WrongHoleCount { hand, found, expected } => {
                words.append("hand ");
                append_number(&mut words, *hand);
                words.append(" has ");
                append_number(&mut words, *found);
                words.append(" cards, expected ");
                append_number(&mut words, expected.0);
                if expected.0 != expected.1 {
                    words.append(" to ");
                    append_number(&mut words, expected.1);
                }
            },
            EquityError::BoardTooLong(found) => {
                words.append("board has ");
                append_number(&mut words, *found);
                words.append(" cards, at most 5 allowed");
            },
            EquityError::DuplicateCard(twice) => {
                words.append("card ");
                let card: String = twice.to_string();
                words.append(card.as_str());
                words.append(" appears more than once");
            },
            EquityError::DeckExhausted { needed, available } => {
                words.append("need ");
                append_number(&mut words, *needed);
                words.append(" more board cards but only ");
                append_number(&mut words, *available);
                words.append(" remain");
            },
        }
        assert(words@ =~= self.words());
        words
    }
}

/// Appends a number in decimal.
fn append_number(words: &mut String, number: usize)
    ensures
        final(words)@ == old(words)@ + text::digits(number as int),
{
    let digits: String = text::decimal(number as u64);
    words.append(digits.as_str());
}

proof fn lemma_left_in_deck(used: Set<Card>, k: int, card: Card)
    requires
        0 <= k <= 52,
    ensures
        undealt(used, k).contains(card) <==> card.order() < k && !used.contains(card),
        undealt(used, k).no_duplicates(),
    decreases k,
{
    if k > 0 {
        lemma_left_in_deck(used, k - 1, card);
        let next = card::card_at((k - 1) / 4, (k - 1) % 4);
        assert(next.order() == k - 1);
        lemma_left_in_deck(used, k - 1, next);
        let (before, after) = (undealt(used, k - 1), undealt(used, k));
        if !used.contains(next) {
            assert(after[before.len() as int] == next);
            if before.contains(card) {
                let i = choose|i: int| 0 <= i < before.len() && before[i] == card;
                assert(after[i] == card);
            }
            if after.contains(card) && !before.contains(card) {
                let i = choose|i: int| 0 <= i < after.len() && after[i] == card;
                assert(i == before.len());
            }
            assert forall|i: int, j: int| 0 <= i < j < after.len() implies after[i] != after[j] by {
                if j == before.len() {
                    assert(before[i] == after[i]);
                    assert(before.contains(after[i]));
                }
            }
        }
        if card.order() == k - 1 {
            card::lemma_order(card, next);
            assert(card == next);
        }
    }
}

proof fn lemma_dealt_cards(cards: Seq<Card>, k: int, used: Set<Card>, card: Card)
    requires
        0 <= k <= cards.len(),
    ensures
        match deal_cards(cards, k, used) {
            Ok(out) => {
                &&& out.contains(card) <==> used.contains(card) || exists|i: int| 0 <= i < k && #[trigger] cards[i] == card
                &&& forall|i: int| 0 <= i < k ==> !used.contains(#[trigger] cards[i])
                &&& forall|i: int, j: int| 0 <= i < j < k ==> #[trigger] cards[i] != #[trigger] cards[j]
            },
            Err(twice) => exists|i: int|
                0 <= i < k && #[trigger] cards[i] == twice && (used.contains(twice) || exists|j: int|
                    0 <= j < i && #[trigger] cards[j] == twice),
        },
    decreases k,
{
    if k > 0 {
        lemma_dealt_cards(cards, k - 1, used, card);
        lemma_dealt_cards(cards, k - 1, used, cards[k - 1]);
        let last = cards[k - 1];
        match deal_cards(cards, k - 1, used) {
            Ok(out) => {
                if !out.contains(last) {
                    assert forall|i: int, j: int| 0 <= i < j < k implies #[trigger] cards[i] != #[trigger] cards[j] by {
                        if j == k - 1 && cards[i] == last {
                            assert(out.contains(last));
                        }
                    }
                } else {
                    assert(cards[k - 1] == last);
                }
            },
            Err(twice) => {
                let i = choose|i: int|
                    0 <= i < k - 1 && #[trigger] cards[i] == twice && (used.contains(twice) || exists|j: int|
                        0 <= j < i && #[trigger] cards[j] == twice);
                assert(cards[i] == twice);
            },
        }
    }
}

proof fn lemma_dealt_hands(hands: Seq<Seq<Card>>, k: int, variant: Variant, card: Card)
    requires
        0 <= k <= hands.len(),
    ensures
        deal_hands(hands, k, variant) matches Ok(out) ==> {
            &&& out.contains(card) <==> exists|h: int, i: int|
                0 <= h < k && 0 <= i < hands[h].len() && #[trigger] hands[h][i] == card
            &&& forall|h: int| 0 <= h < k ==> (#[trigger] hands[h]).no_duplicates() && (if variant is Holdem {
                hands[h].len() == 2
            } else {
                4 <= hands[h].len() <= 6
            })
            &&& forall|g: int, h: int, i: int, j: int|
                0 <= g < h < k && 0 <= i < hands[g].len() && 0 <= j < hands[h].len() ==> #[trigger] hands[g][i]
                    != #[trigger] hands[h][j]
        },
    decreases k,
{
    if k > 0 {
        lemma_dealt_hands(hands, k - 1, variant, card);
        if let Ok(out) = deal_hands(hands, k - 1, variant) {
            let hand = hands[k - 1];
            lemma_dealt_cards(hand, hand.len() as int, out, card);
            if let Ok(more) = deal_cards(hand, hand.len() as int, out) {
                assert forall|g: int, h: int, i: int, j: int|
                    0 <= g < h < k && 0 <= i < hands[g].len() && 0 <= j < hands[h].len() implies #[trigger] hands[g][i]
                    != #[trigger] hands[h][j] by {
                    if h == k - 1 {
                        lemma_dealt_hands(hands, k - 1, variant, hands[g][i]);
                        assert(out.contains(hands[g][i]));
                        assert(!out.contains(hand[j]));
                    }
                }
                if more.contains(card) && !out.contains(card) {
                    let i = choose|i: int| 0 <= i < hand.len() && #[trigger] hand[i] == card;
                    assert(hands[k - 1][i] == card);
                }
                if exists|h: int, i: int| 0 <= h < k && 0 <= i < hands[h].len() && #[trigger] hands[h][i] == card {
                    let (h, i) = choose|h: int, i: int|
                        0 <= h < k && 0 <= i < hands[h].len() && #[trigger] hands[h][i] == card;
                    if h == k - 1 {
                        assert(hand[i] == card);
                    } else {
                        assert(hands[h][i] == card);
                    }
                }
            }
        }
    }
}

/// What can be dealt: two hands or more, of two cards each, or of four to six in
/// Omaha, and at most five board cards, no card twice; and what is left is the
/// rest of the deck, each card of it once.
pub proof fn law_the_deck_is_what_is_not_dealt(
    hands: Seq<Seq<Card>>,
    board: Seq<Card>,
    variant: Variant,
    card: Card,
)
    ensures
        deck_dealt(hands, board, variant) matches Ok(deck) ==> {
            &&& hands.len() >= 2
            &&& board.len() <= 5
            &&& board.no_duplicates()
            &&& forall|h: int| 0 <= h < hands.len() ==> (#[trigger] hands[h]).no_duplicates() && (
            if variant is Holdem {
                hands[h].len() == 2
            } else {
                4 <= hands[h].len() <= 6
            })
            &&& deck.no_duplicates()
            &&& deck.contains(card) <==> !board.contains(card) && forall|h: int, i: int|
                0 <= h < hands.len() && 0 <= i < hands[h].len() ==> #[trigger] hands[h][i] != card
        },
{
    if let Ok(deck) = deck_dealt(hands, board, variant) {
        lemma_dealt_hands(hands, hands.len() as int, variant, card);
        let out = deal_hands(hands, hands.len() as int, variant)->Ok_0;
        lemma_dealt_cards(board, board.len() as int, out, card);
        let used = deal_cards(board, board.len() as int, out)->Ok_0;
        lemma_left_in_deck(used, 52, card);
        card::lemma_order(card, card);
        if board.contains(card) {
            let i = choose|i: int| 0 <= i < board.len() && board[i] == card;
            assert(used.contains(board[i]));
        }
        if exists|i: int| 0 <= i < board.len() && #[trigger] board[i] == card {
            assert(board.contains(card));
        }
    }
}

/// On a complete board the pot is shared by exactly the hands that no other
/// beats: a hand that is beaten has no part of it, and the strongest has.
pub proof fn law_the_strongest_hands_share_a_board(
    hands: Seq<Seq<Card>>,
    board: Seq<Card>,
    variant: Variant,
    better: int,
    worse: int,
    k: int,
)
    requires
        0 <= better < hands.len(),
        0 <= worse < hands.len(),
        holding_strength(variant, hands[worse], board) < holding_strength(variant, hands[better], board),
    ensures
        !is_winner(hands, board, variant, worse),
        !shares_pot(hands, board, variant, worse, k),
        (forall|g: int|
            0 <= g < hands.len() && g != better ==> #[trigger] holding_strength(variant, hands[g], board)
                < holding_strength(variant, hands[better], board)) ==> shares_pot(hands, board, variant, better, 1),
{
    if forall|g: int|
        0 <= g < hands.len() && g != better ==> #[trigger] holding_strength(variant, hands[g], board)
            < holding_strength(variant, hands[better], board) {
        lemma_one_winner(hands, board, variant, better, hands.len() as int);
    }
}

proof fn lemma_one_winner(hands: Seq<Seq<Card>>, board: Seq<Card>, variant: Variant, best: int, k: int)
    requires
        0 <= best < hands.len(),
        0 <= k <= hands.len(),
        forall|g: int|
            0 <= g < hands.len() && g != best ==> #[trigger] holding_strength(variant, hands[g], board)
                < holding_strength(variant, hands[best], board),
    ensures
        is_winner(hands, board, variant, best),
        winner_count(hands, board, variant, k) == (if best < k {
            1int
        } else {
            0
        }),
    decreases k,
{
    if k > 0 {
        lemma_one_winner(hands, board, variant, best, k - 1);
        if k - 1 != best {
            assert(holding_strength(variant, hands[k - 1], board) < holding_strength(variant, hands[best], board));
            assert(!is_winner(hands, board, variant, k - 1));
        }
    }
}

/// A hand's strength is that of the best five of all its cards, and in Omaha of
/// two of its own with three of the board.
pub proof fn law_a_holding_is_as_strong_as_its_best_five(hole: Seq<Card>, board: Seq<Card>, best: int)
    ensures
        holding_strength(Variant::Holdem, hole, board) == eval::strength((hole + board).to_set()),
        omaha::is_best_omaha(hole.to_set(), board.to_set(), best) ==> holding_strength(Variant::Omaha, hole, board) == best,
{
    if omaha::is_best_omaha(hole.to_set(), board.to_set(), best) {
        let held = holding_strength(Variant::Omaha, hole, board);
        omaha::law_omaha_strength_is_settled_by_the_cards(hole.to_set(), board.to_set(), held, best);
    }
}

/// Ways of choosing: one of choosing nothing or everything, none of choosing
/// more than there is, and as many of taking `k` as of leaving `k`.
pub proof fn law_choosing_is_leaving(n: int, k: int)
    requires
        0 <= k,
        0 <= n,
    ensures
        ways(n, 0) == 1,
        ways(n, n) == 1,
        k > n ==> ways(n, k) == 0,
        k <= n ==> ways(n, k) == ways(n, n - k),
        1 <= n ==> ways(n, 1) == n,
    decreases n,
{
    if n > 0 {
        law_choosing_is_leaving(n - 1, k);
        if k > 0 {
            law_choosing_is_leaving(n - 1, k - 1);
        }
        assert(ways(n - 1, n) == 0);
        if n > 1 {
            law_choosing_is_leaving(n - 1, 1);
        }
    }
}

/// Of two hands one or the other is better, or both are alike.
pub(crate) proof fn lemma_two_hands(hands: Seq<Seq<Card>>, board: Seq<Card>, variant: Variant)
    requires
        hands.len() == 2,
    ensures
        eval::one(shares_pot(hands, board, variant, 0, 1)) + eval::one(shares_pot(hands, board, variant, 1, 1))
            + eval::one(shares_pot(hands, board, variant, 0, 2)) == 1,
        shares_pot(hands, board, variant, 0, 2) == shares_pot(hands, board, variant, 1, 2),
{
    let (a, b) = (holding_strength(variant, hands[0], board), holding_strength(variant, hands[1], board));
    assert(is_winner(hands, board, variant, 0) <==> b <= a) by {
        if is_winner(hands, board, variant, 0) {
            assert(holding_strength(variant, hands[1], board) <= a);
        }
    }
    assert(is_winner(hands, board, variant, 1) <==> a <= b) by {
        if is_winner(hands, board, variant, 1) {
            assert(holding_strength(variant, hands[0], board) <= b);
        }
    }
    reveal_with_fuel(winner_count, 3);
}

/// Every runout of two hands is won by one, won by the other, or shared.
pub(crate) proof fn lemma_two_hands_counted(hands: Seq<Seq<Card>>, board: Seq<Card>, variant: Variant, deck: Seq<Card>, missing: int)
    requires
        hands.len() == 2,
    ensures
        ({
            let counted = every_runout(deck, missing);
            &&& counted(any_runout()) == counted(sharing(hands, board, variant, 0, 1)) + counted(
                sharing(hands, board, variant, 1, 1),
            ) + counted(sharing(hands, board, variant, 0, 2))
            &&& counted(sharing(hands, board, variant, 0, 2)) == counted(sharing(hands, board, variant, 1, 2))
        }),
{
    let first = sharing(hands, board, variant, 0, 1);
    let second = sharing(hands, board, variant, 1, 1);
    let both = sharing(hands, board, variant, 0, 2);
    let alike = sharing(hands, board, variant, 1, 2);
    let rest = |x: Seq<Card>| second(x) || both(x);
    let none = |x: Seq<Card>| false;
    let any = any_runout();
    assert forall|x: Seq<Card>| eval::one(#[trigger] any(x)) == eval::one(first(x)) + eval::one(rest(x)) by {
        lemma_two_hands(hands, board + x, variant);
    }
    assert forall|x: Seq<Card>| eval::one(#[trigger] rest(x)) == eval::one(second(x)) + eval::one(both(x)) by {
        lemma_two_hands(hands, board + x, variant);
    }
    assert forall|x: Seq<Card>| eval::one(#[trigger] alike(x)) == eval::one(both(x)) + eval::one(none(x)) by {
        lemma_two_hands(hands, board + x, variant);
    }
    lemma_runouts_add(deck, 0, missing, seq![], any, first, rest);
    lemma_runouts_add(deck, 0, missing, seq![], rest, second, both);
    lemma_runouts_add(deck, 0, missing, seq![], alike, both, none);
    lemma_runouts_add(deck, 0, missing, seq![], none, none, none);
}

/// When there are too few cards left to complete a board: where board and deck
/// together are fewer than five, and then it is said how many are wanted and how
/// many there are.
pub proof fn law_a_board_needs_enough_cards(hands: Seq<Seq<Card>>, board: Seq<Card>, variant: Variant)
    ensures
        match deck_dealt(hands, board, variant) {
            Err(error) => deck_left(hands, board, variant) == Err::<Seq<Card>, EquityError>(error),
            Ok(deck) => {
                &&& board.len() + deck.len() >= 5 ==> deck_left(hands, board, variant) == Ok::<Seq<Card>, EquityError>(
                    deck,
                )
                &&& board.len() + deck.len() < 5 ==> (deck_left(hands, board, variant) matches Err(
                    EquityError::DeckExhausted { needed, available },
                ) && needed + board.len() == 5 && available == deck.len())
            },
        },
{
}

} // verus!
