//! Omaha hand evaluation.
//!
//! Omaha's defining rule is that a hand plays **exactly two** hole cards and
//! **exactly three** board cards. Four to a flush on the board is worthless
//! holding one card of the suit, quads on the board play as trips, and a board
//! straight cannot simply be played.
//!
//! The functions here try every valid split and take the best. Hole sizes other
//! than four are accepted, so five- and six-card Omaha variants work unchanged.

use crate::card::Card;
use crate::eval;
use crate::eval::{evaluate, HandRank};
use vstd::prelude::*;

verus! {

/// The number of hole cards that must play in an Omaha hand.
pub const HOLE_CARDS_USED: usize = 2;

/// The number of board cards that must play in an Omaha hand.
pub const BOARD_CARDS_USED: usize = 3;

/// A choice of two hole cards and three board cards, by position.
pub struct Split {
    pub i: int,
    pub j: int,
    pub a: int,
    pub b: int,
    pub c: int,
}

/// Whether a choice is of two hole cards and three board cards.
pub open spec fn is_split(hole: Seq<Card>, board: Seq<Card>, s: Split) -> bool {
    0 <= s.i < s.j < hole.len() && 0 <= s.a < s.b < s.c < board.len()
}

/// The five cards of a choice, those from the hand first.
pub open spec fn five_of(hole: Seq<Card>, board: Seq<Card>, s: Split) -> Seq<Card> {
    seq![hole[s.i], hole[s.j], board[s.a], board[s.b], board[s.c]]
}

/// Whether one choice comes before another when going through them in order.
pub open spec fn before(s: Split, t: Split) -> bool {
    s.i < t.i || (s.i == t.i && (s.j < t.j || (s.j == t.j && (s.a < t.a || (s.a == t.a && (s.b < t.b || (
    s.b == t.b && s.c < t.c)))))))
}

/// The strength of a choice.
pub open spec fn split_strength(hole: Seq<Card>, board: Seq<Card>, s: Split) -> int {
    eval::strength(five_of(hole, board, s).to_set())
}

/// Whether `five` is made of two cards of the hand and three of the board.
pub open spec fn plays(hole: Set<Card>, board: Set<Card>, five: Set<Card>) -> bool {
    exists|p: Card, q: Card, x: Card, y: Card, z: Card| #[trigger] takes(hole, board, five, p, q, x, y, z)
}

pub open spec fn takes(
    hole: Set<Card>,
    board: Set<Card>,
    five: Set<Card>,
    p: Card,
    q: Card,
    x: Card,
    y: Card,
    z: Card,
) -> bool {
    &&& hole.contains(p)
    &&& hole.contains(q)
    &&& p != q
    &&& board.contains(x)
    &&& board.contains(y)
    &&& board.contains(z)
    &&& x != y
    &&& y != z
    &&& x != z
    &&& five == set![p, q, x, y, z]
}

/// Whether `best` is the greatest strength of a legal choice of five cards.
pub open spec fn is_best_omaha(hole: Set<Card>, board: Set<Card>, best: int) -> bool {
    &&& exists|five: Set<Card>| #[trigger] plays(hole, board, five) && eval::is_best(five, best)
    &&& forall|five: Set<Card>| #[trigger] plays(hole, board, five) ==> eval::strength(five) <= best
}

/// The strength of an Omaha hand does not depend on the order of the cards: the
/// sets of cards settle it.
pub proof fn law_omaha_strength_is_settled_by_the_cards(hole: Set<Card>, board: Set<Card>, a: int, b: int)
    requires
        is_best_omaha(hole, board, a),
        is_best_omaha(hole, board, b),
    ensures
        a == b,
{
    let f = choose|five: Set<Card>| #[trigger] plays(hole, board, five) && eval::is_best(five, a);
    let g = choose|five: Set<Card>| #[trigger] plays(hole, board, five) && eval::is_best(five, b);
    eval::lemma_best_unique(f, a, eval::strength(f));
    eval::lemma_best_unique(g, b, eval::strength(g));
}

/// Whether the best of the choices before `limit` has been found: the first of
/// the strongest, or none where there is no choice yet.
spec fn found(hole: Seq<Card>, board: Seq<Card>, limit: Split, best: int, cards: Seq<Card>) -> bool {
    &&& forall|s: Split| #[trigger] is_split(hole, board, s) && before(s, limit) ==> split_strength(hole, board, s) <= best
    &&& first_best(hole, board, limit, best, cards) || (best == 0 && forall|s: Split|
        #[trigger] is_split(hole, board, s) ==> !before(s, limit))
}

/// Whether `cards` are the first choice before `limit` of strength `best`, and
/// every earlier choice is weaker.
pub open spec fn first_best(hole: Seq<Card>, board: Seq<Card>, limit: Split, best: int, cards: Seq<Card>) -> bool {
    exists|s: Split|
        {
            &&& #[trigger] is_split(hole, board, s)
            &&& before(s, limit)
            &&& cards == five_of(hole, board, s)
            &&& eval::is_best(cards.to_set(), best)
            &&& forall|t: Split| #[trigger] is_split(hole, board, t) && before(t, s) ==> split_strength(hole, board, t) < best
        }
}

/// The five cards of a choice are different ones.
proof fn lemma_five_distinct(hole: Seq<Card>, board: Seq<Card>, s: Split)
    requires
        is_split(hole, board, s),
        (hole + board).no_duplicates(),
    ensures
        five_of(hole, board, s).no_duplicates(),
{
    let all = hole + board;
    let n = hole.len() as int;
    assert(all[s.i] == hole[s.i]);
    assert(all[s.j] == hole[s.j]);
    assert(all[n + s.a] == board[s.a]);
    assert(all[n + s.b] == board[s.b]);
    assert(all[n + s.c] == board[s.c]);
}

/// Considering one more choice.
proof fn lemma_consider(
    hole: Seq<Card>,
    board: Seq<Card>,
    s: Split,
    best: int,
    cards: Seq<Card>,
    rank: int,
)
    requires
        is_split(hole, board, s),
        found(hole, board, s, best, cards),
        best >= 0,
        eval::is_best(five_of(hole, board, s).to_set(), rank),
        rank == split_strength(hole, board, s),
    ensures
        ({
            let next = Split { c: s.c + 1, ..s };
            if rank > best {
                found(hole, board, next, rank, five_of(hole, board, s))
            } else {
                found(hole, board, next, best, cards)
            }
        }),
{
    let next = Split { c: s.c + 1, ..s };
    eval::law_worst_is_below_every_hand(five_of(hole, board, s).to_set(), rank);
    assert forall|t: Split| #[trigger] is_split(hole, board, t) && before(t, next) implies before(t, s) || t == s by {}
    if rank > best {
        assert(before(s, next));
        assert(first_best(hole, board, next, rank, five_of(hole, board, s)));
    } else {
        let w = choose|w: Split|
            {
                &&& #[trigger] is_split(hole, board, w)
                &&& before(w, s)
                &&& cards == five_of(hole, board, w)
                &&& eval::is_best(cards.to_set(), best)
                &&& forall|t: Split| #[trigger] is_split(hole, board, t) && before(t, w) ==> split_strength(hole, board, t) < best
            };
        assert(before(w, next));
        assert(first_best(hole, board, next, best, cards));
    }
}

/// Two places in the order with no choice between them.
proof fn lemma_skip(hole: Seq<Card>, board: Seq<Card>, s: Split, t: Split, best: int, cards: Seq<Card>)
    requires
        found(hole, board, s, best, cards),
        forall|u: Split| #[trigger] is_split(hole, board, u) ==> before(u, s) == before(u, t),
    ensures
        found(hole, board, t, best, cards),
{
    if first_best(hole, board, s, best, cards) {
        let w = choose|w: Split|
            {
                &&& #[trigger] is_split(hole, board, w)
                &&& before(w, s)
                &&& cards == five_of(hole, board, w)
                &&& eval::is_best(cards.to_set(), best)
                &&& forall|t: Split| #[trigger] is_split(hole, board, t) && before(t, w) ==> split_strength(hole, board, t) < best
            };
        assert(before(w, t));
        assert(first_best(hole, board, t, best, cards));
    }
}

/// Any two cards of the hand and three of the board are those of some choice.
proof fn lemma_split_of(hole: Seq<Card>, board: Seq<Card>, five: Set<Card>) -> (s: Split)
    requires
        plays(hole.to_set(), board.to_set(), five),
    ensures
        is_split(hole, board, s),
        five_of(hole, board, s).to_set() == five,
{
    let (p, q, x, y, z) = choose|p: Card, q: Card, x: Card, y: Card, z: Card|
        #[trigger] takes(hole.to_set(), board.to_set(), five, p, q, x, y, z);
    let pi = choose|i: int| 0 <= i < hole.len() && hole[i] == p;
    let qi = choose|i: int| 0 <= i < hole.len() && hole[i] == q;
    let xi = choose|i: int| 0 <= i < board.len() && board[i] == x;
    let yi = choose|i: int| 0 <= i < board.len() && board[i] == y;
    let zi = choose|i: int| 0 <= i < board.len() && board[i] == z;
    assert(hole.contains(p) && hole.contains(q));
    assert(board.contains(x) && board.contains(y) && board.contains(z));
    let i = if pi < qi { pi } else { qi };
    let j = if pi < qi { qi } else { pi };
    let a = if xi < yi && xi < zi { xi } else if yi < zi { yi } else { zi };
    let c = if xi > yi && xi > zi { xi } else if yi > zi { yi } else { zi };
    let b = xi + yi + zi - a - c;
    let s = Split { i, j, a, b, c };
    assert(b == xi || b == yi || b == zi);
    let cards = five_of(hole, board, s);
    assert forall|card: Card| cards.to_set().contains(card) == five.contains(card) by {
        assert(cards[0] == hole[i] && cards[1] == hole[j] && cards[2] == board[a] && cards[3] == board[b]
            && cards[4] == board[c]);
        if cards.contains(card) {
            let k = choose|k: int| 0 <= k < cards.len() && cards[k] == card;
            assert(k == 0 || k == 1 || k == 2 || k == 3 || k == 4);
        }
        if card == p || card == q {
            assert(cards[0] == card || cards[1] == card);
        }
        if card == x || card == y || card == z {
            assert(cards[2] == card || cards[3] == card || cards[4] == card);
        }
    }
    assert(cards.to_set() =~= five);
    s
}

/// The cards of a choice are two of the hand and three of the board.
proof fn lemma_split_plays(hole: Seq<Card>, board: Seq<Card>, s: Split)
    requires
        is_split(hole, board, s),
        (hole + board).no_duplicates(),
    ensures
        plays(hole.to_set(), board.to_set(), five_of(hole, board, s).to_set()),
{
    let cards = five_of(hole, board, s);
    lemma_five_distinct(hole, board, s);
    let (p, q, x, y, z) = (cards[0], cards[1], cards[2], cards[3], cards[4]);
    assert(hole.contains(hole[s.i]) && hole.contains(hole[s.j]));
    assert(board.contains(board[s.a]) && board.contains(board[s.b]) && board.contains(board[s.c]));
    let five = set![p, q, x, y, z];
    assert forall|card: Card| cards.to_set().contains(card) == five.contains(card) by {
        if cards.contains(card) {
            let k = choose|k: int| 0 <= k < cards.len() && cards[k] == card;
            assert(k == 0 || k == 1 || k == 2 || k == 3 || k == 4);
        }
    }
    assert(cards.to_set() =~= five);
    assert(takes(hole.to_set(), board.to_set(), cards.to_set(), p, q, x, y, z));
}

/// Evaluates the best legal Omaha hand from `hole` and `board`.
///
/// `board` may hold 3, 4, or 5 cards, so this works on the flop and turn as
/// well as at showdown.
pub fn evaluate_omaha(hole: &[Card], board: &[Card]) -> (rank: HandRank)
    requires
        hole@.len() >= 2,
        board@.len() >= 3,
        (hole@ + board@).no_duplicates(),
    ensures
        is_best_omaha(hole@.to_set(), board@.to_set(), rank@),
{
    best_omaha_hand(hole, board).0
}

/// Like [`evaluate_omaha`], but also returns the five cards that made the hand:
/// the first of the strongest choices in the order the cards are given.
///
/// The two hole cards come first, then the three board cards.
pub fn best_omaha_hand(hole: &[Card], board: &[Card]) -> (best: (HandRank, [Card; 5]))
    requires
        hole@.len() >= 2,
        board@.len() >= 3,
        (hole@ + board@).no_duplicates(),
    ensures
        is_best_omaha(hole@.to_set(), board@.to_set(), best.0@),
        first_best(
            hole@,
            board@,
            (Split { i: hole@.len() as int, j: 0, a: 0, b: 0, c: 0 }),
            best.0@,
            best.1@,
        ),
{
    let n: usize = hole.len();
    let m: usize = board.len();
    let mut best = HandRank::worst();
    let mut best_cards: [Card; 5] = [hole[0], hole[0], hole[0], hole[0], hole[0]];
    let mut i: usize = 0;
    while i < n
        invariant
            n == hole@.len(),
            m == board@.len(),
            i <= n,
            (hole@ + board@).no_duplicates(),
            best@ >= 0,
            found(hole@, board@, (Split { i: i as int, j: 0, a: 0, b: 0, c: 0 }), best@, best_cards@),
        decreases n - i,
    {
        let mut j: usize = i + 1;
        proof {
            lemma_skip(
                hole@,
                board@,
                Split { i: i as int, j: 0, a: 0, b: 0, c: 0 },
                Split { i: i as int, j: j as int, a: 0, b: 0, c: 0 },
                best@,
                best_cards@,
            );
        }
        while j < n
            invariant
                n == hole@.len(),
                m == board@.len(),
                i < j <= n,
                (hole@ + board@).no_duplicates(),
                best@ >= 0,
                found(hole@, board@, (Split { i: i as int, j: j as int, a: 0, b: 0, c: 0 }), best@, best_cards@),
            decreases n - j,
        {
            let (rank, cards) = best_with_pair(hole, board, i, j, best, best_cards);
            best = rank;
            best_cards = cards;
            j = j + 1;
        }
        proof {
            lemma_skip(
                hole@,
                board@,
                Split { i: i as int, j: n as int, a: 0, b: 0, c: 0 },
                Split { i: i + 1, j: 0, a: 0, b: 0, c: 0 },
                best@,
                best_cards@,
            );
        }
        i = i + 1;
    }
    proof {
        let first = Split { i: 0, j: 1, a: 0, b: 1, c: 2 };
        let end = Split { i: n as int, j: 0, a: 0, b: 0, c: 0 };
        assert(is_split(hole@, board@, first) && before(first, end));
        assert(first_best(hole@, board@, end, best@, best_cards@));
        let w = choose|w: Split|
            {
                &&& #[trigger] is_split(hole@, board@, w)
                &&& before(w, end)
                &&& best_cards@ == five_of(hole@, board@, w)
                &&& eval::is_best(best_cards@.to_set(), best@)
                &&& forall|t: Split| #[trigger] is_split(hole@, board@, t) && before(t, w) ==> split_strength(hole@, board@, t) < best@
            };
        lemma_split_plays(hole@, board@, w);
        assert forall|five: Set<Card>| #[trigger] plays(hole@.to_set(), board@.to_set(), five) implies eval::strength(five) <= best@ by {
            let s = lemma_split_of(hole@, board@, five);
            assert(before(s, end));
        }
    }
    (best, best_cards)
}

/// Goes on through the choices that use one pair of hole cards.
fn best_with_pair(hole: &[Card], board: &[Card], i: usize, j: usize, best: HandRank, best_cards: [Card; 5]) -> (result: (HandRank, [Card; 5]))
    requires
        i < j < hole@.len(),
        (hole@ + board@).no_duplicates(),
        best@ >= 0,
        found(hole@, board@, (Split { i: i as int, j: j as int, a: 0, b: 0, c: 0 }), best@, best_cards@),
    ensures
        result.0@ >= 0,
        found(hole@, board@, (Split { i: i as int, j: j + 1, a: 0, b: 0, c: 0 }), result.0@, result.1@),
{
    let m: usize = board.len();
    let mut best = best;
    let mut best_cards = best_cards;
    let mut a: usize = 0;
    while a < m
        invariant
            i < j < hole@.len(),
            m == board@.len(),
            a <= m,
            (hole@ + board@).no_duplicates(),
            best@ >= 0,
            found(hole@, board@, (Split { i: i as int, j: j as int, a: a as int, b: 0, c: 0 }), best@, best_cards@),
        decreases m - a,
    {
        let mut b: usize = a + 1;
        proof {
            lemma_skip(
                hole@,
                board@,
                Split { i: i as int, j: j as int, a: a as int, b: 0, c: 0 },
                Split { i: i as int, j: j as int, a: a as int, b: b as int, c: 0 },
                best@,
                best_cards@,
            );
        }
        while b < m
            invariant
                i < j < hole@.len(),
                m == board@.len(),
                a < b <= m,
                (hole@ + board@).no_duplicates(),
                best@ >= 0,
                found(hole@, board@, (Split { i: i as int, j: j as int, a: a as int, b: b as int, c: 0 }), best@, best_cards@),
            decreases m - b,
        {
            let mut c: usize = b + 1;
            proof {
                lemma_skip(
                    hole@,
                    board@,
                    Split { i: i as int, j: j as int, a: a as int, b: b as int, c: 0 },
                    Split { i: i as int, j: j as int, a: a as int, b: b as int, c: c as int },
                    best@,
                    best_cards@,
                );
            }
            while c < m
                invariant
                    i < j < hole@.len(),
                    m == board@.len(),
                    a < b < c <= m,
                    (hole@ + board@).no_duplicates(),
                    best@ >= 0,
                    found(hole@, board@, (Split { i: i as int, j: j as int, a: a as int, b: b as int, c: c as int }), best@, best_cards@),
                decreases m - c,
            {
                let five: [Card; 5] = [hole[i], hole[j], board[a], board[b], board[c]];
                let ghost s = Split { i: i as int, j: j as int, a: a as int, b: b as int, c: c as int };
                proof {
                    assert(five@ =~= five_of(hole@, board@, s));
                    lemma_five_distinct(hole@, board@, s);
                }
                let rank = evaluate(&five);
                proof {
                    lemma_consider(hole@, board@, s, best@, best_cards@, rank@);
                }
                if rank.to_bits() > best.to_bits() {
                    best = rank;
                    best_cards = five;
                }
                c = c + 1;
            }
            proof {
                lemma_skip(
                    hole@,
                    board@,
                    Split { i: i as int, j: j as int, a: a as int, b: b as int, c: m as int },
                    Split { i: i as int, j: j as int, a: a as int, b: b + 1, c: 0 },
                    best@,
                    best_cards@,
                );
            }
            b = b + 1;
        }
        proof {
            lemma_skip(
                hole@,
                board@,
                Split { i: i as int, j: j as int, a: a as int, b: m as int, c: 0 },
                Split { i: i as int, j: j as int, a: a + 1, b: 0, c: 0 },
                best@,
                best_cards@,
            );
        }
        a = a + 1;
    }
    proof {
        lemma_skip(
            hole@,
            board@,
            Split { i: i as int, j: j as int, a: m as int, b: 0, c: 0 },
            Split { i: i as int, j: j + 1, a: 0, b: 0, c: 0 },
            best@,
            best_cards@,
        );
    }
    (best, best_cards)
}

/// An Omaha hand is no weaker than any two of its cards with any three of the
/// board, and as strong as some two with some three.
pub proof fn law_two_from_the_hand_and_three_from_the_board(
    hole: Set<Card>,
    board: Set<Card>,
    best: int,
    p: Card,
    q: Card,
    x: Card,
    y: Card,
    z: Card,
)
    requires
        is_best_omaha(hole, board, best),
        hole.contains(p) && hole.contains(q) && p != q,
        board.contains(x) && board.contains(y) && board.contains(z),
        x != y && y != z && x != z,
    ensures
        eval::strength(set![p, q, x, y, z]) <= best,
        exists|a: Card, b: Card, c: Card, d: Card, e: Card| {
            &&& hole.contains(a) && hole.contains(b) && a != b
            &&& board.contains(c) && board.contains(d) && board.contains(e)
            &&& c != d && d != e && c != e
            &&& #[trigger] eval::is_best(set![a, b, c, d, e], best)
        },
{
    let five = set![p, q, x, y, z];
    assert(takes(hole, board, five, p, q, x, y, z));
    assert(plays(hole, board, five));
    let top = choose|five: Set<Card>| #[trigger] plays(hole, board, five) && eval::is_best(five, best);
    let (a, b, c, d, e) = choose|a: Card, b: Card, c: Card, d: Card, e: Card| #[trigger]
        takes(hole, board, top, a, b, c, d, e);
    assert(eval::is_best(set![a, b, c, d, e], best));
}

} // verus!
