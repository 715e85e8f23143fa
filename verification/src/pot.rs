//! Pot construction and showdown distribution.
//!
//! When players go all in for different amounts, the money splits into a main
//! pot and one or more side pots. Each pot can only be won by players who
//! contributed to it, so a short all-in player cannot win chips they never
//! covered. A player who folds leaves their chips in the pot and may not win
//! them back: contribution and eligibility are separate questions.
//!
//! # The model
//!
//! The pots are described chip by chip. At the `x`-th chip of the table every
//! player who put in at least `x` adds one chip, to be won by those of them who
//! did not fold; consecutive chips with the same contenders are one pot.

use crate::eval::HandRank;
use vstd::prelude::*;

verus! {

/// A pot or side pot: an amount, and the players who may win it.
#[derive(Debug, Clone, PartialEq, Eq)]
pub struct Pot {
    /// Chips in this pot.
    pub amount: u64,
    /// Seat indices eligible to win it, ascending. Empty only if every
    /// contributor folded.
    pub eligible: Vec<usize>,
}

/// A pot as a mathematical value.
#[verifier::ext_equal]
pub struct PotModel {
    pub amount: int,
    pub eligible: Seq<usize>,
}

impl View for Pot {
    type V = PotModel;

    open spec fn view(&self) -> PotModel {
        PotModel { amount: self.amount as int, eligible: self.eligible@ }
    }
}

pub open spec fn pot_models(pots: Seq<Pot>) -> Seq<PotModel> {
    pots.map_values(|pot: Pot| pot@)
}

/// How many of the first `k` players put in at least `x` chips.
pub open spec fn funders(contributed: Seq<u64>, x: int, k: int) -> int
    decreases k,
{
    if k <= 0 {
        0
    } else {
        funders(contributed, x, k - 1) + (if contributed[k - 1] >= x {
            1int
        } else {
            0
        })
    }
}

/// Those of the first `k` players who put in at least `x` chips and did not
/// fold, in seat order.
pub open spec fn contenders(contributed: Seq<u64>, folded: Seq<bool>, x: int, k: int) -> Seq<usize>
    decreases k,
{
    if k <= 0 {
        seq![]
    } else if contributed[k - 1] >= x && !folded[k - 1] {
        contenders(contributed, folded, x, k - 1).push((k - 1) as usize)
    } else {
        contenders(contributed, folded, x, k - 1)
    }
}

/// Puts chips into the last pot if it has the same contenders, and into a new
/// one otherwise.
pub open spec fn add_chips(pots: Seq<PotModel>, amount: int, eligible: Seq<usize>) -> Seq<PotModel> {
    if amount == 0 {
        pots
    } else if pots.len() > 0 && pots.last().eligible == eligible {
        pots.update(
            pots.len() - 1,
            PotModel { amount: pots.last().amount + amount, eligible: eligible },
        )
    } else {
        pots.push(PotModel { amount, eligible })
    }
}

/// The pots made of the first `x` chips of every player.
pub open spec fn pots_to(contributed: Seq<u64>, folded: Seq<bool>, x: int) -> Seq<PotModel>
    decreases x,
{
    if x <= 0 {
        seq![]
    } else {
        add_chips(
            pots_to(contributed, folded, x - 1),
            funders(contributed, x, contributed.len() as int),
            contenders(contributed, folded, x, contributed.len() as int),
        )
    }
}

/// The largest of the first `k` amounts.
pub open spec fn largest(amounts: Seq<u64>, k: int) -> int
    decreases k,
{
    if k <= 0 {
        0
    } else if amounts[k - 1] > largest(amounts, k - 1) {
        amounts[k - 1] as int
    } else {
        largest(amounts, k - 1)
    }
}

/// The sum of the first `k` amounts.
pub open spec fn sum_to(amounts: Seq<u64>, k: int) -> int
    decreases k,
{
    if k <= 0 {
        0
    } else {
        sum_to(amounts, k - 1) + amounts[k - 1]
    }
}

pub open spec fn sum(amounts: Seq<u64>) -> int {
    sum_to(amounts, amounts.len() as int)
}

/// The chips in the first `k` pots.
pub open spec fn chips_to(pots: Seq<PotModel>, k: int) -> int
    decreases k,
{
    if k <= 0 {
        0
    } else {
        chips_to(pots, k - 1) + pots[k - 1].amount
    }
}

pub open spec fn chips(pots: Seq<PotModel>) -> int {
    chips_to(pots, pots.len() as int)
}

/// The pots of a hand.
pub open spec fn pots_of(contributed: Seq<u64>, folded: Seq<bool>) -> Seq<PotModel> {
    pots_to(contributed, folded, largest(contributed, contributed.len() as int))
}

proof fn lemma_largest(amounts: Seq<u64>, k: int, i: int)
    requires
        0 <= i < k <= amounts.len(),
    ensures
        amounts[i] <= largest(amounts, k),
    decreases k,
{
    if i < k - 1 {
        lemma_largest(amounts, k - 1, i);
    }
}

proof fn lemma_largest_is_one(amounts: Seq<u64>, k: int)
    requires
        0 <= k <= amounts.len(),
    ensures
        0 <= largest(amounts, k) <= u64::MAX,
        largest(amounts, k) > 0 ==> exists|i: int| 0 <= i < k && amounts[i] == largest(amounts, k),
    decreases k,
{
    if k > 0 {
        lemma_largest_is_one(amounts, k - 1);
        if amounts[k - 1] > largest(amounts, k - 1) {
            assert(amounts[k - 1] == largest(amounts, k));
        }
    }
}

/// The chips at two heights with no contribution between them are put in and
/// contended for by the same players.
proof fn lemma_same_layer(contributed: Seq<u64>, folded: Seq<bool>, x: int, y: int, k: int)
    requires
        0 <= k <= contributed.len(),
        x <= y,
        forall|i: int| 0 <= i < k ==> !(x <= #[trigger] contributed[i] < y),
    ensures
        funders(contributed, x, k) == funders(contributed, y, k),
        contenders(contributed, folded, x, k) == contenders(contributed, folded, y, k),
        0 <= funders(contributed, x, k) <= k,
    decreases k,
{
    if k > 0 {
        lemma_same_layer(contributed, folded, x, y, k - 1);
    }
}

/// A whole layer of chips goes in as if at once.
proof fn lemma_layer(contributed: Seq<u64>, folded: Seq<bool>, from: int, to: int)
    requires
        0 <= from < to,
        forall|i: int| 0 <= i < contributed.len() ==> !(from < #[trigger] contributed[i] < to),
    ensures
        pots_to(contributed, folded, to) == add_chips(
            pots_to(contributed, folded, from),
            (to - from) * funders(contributed, to, contributed.len() as int),
            contenders(contributed, folded, to, contributed.len() as int),
        ),
    decreases to - from,
{
    let n = contributed.len() as int;
    let f = funders(contributed, to, n);
    let e = contenders(contributed, folded, to, n);
    lemma_same_layer(contributed, folded, to, to, n);
    if to - from > 1 {
        lemma_layer(contributed, folded, from, to - 1);
        lemma_same_layer(contributed, folded, to - 1, to, n);
        let before = pots_to(contributed, folded, from);
        assert((to - from) * f == (to - 1 - from) * f + f) by (nonlinear_arith);
        assert(f > 0 ==> (to - 1 - from) * f > 0) by (nonlinear_arith)
            requires
                to - 1 - from > 0,
        ;
        assert(f == 0 ==> (to - 1 - from) * f == 0) by (nonlinear_arith);
        let middle = add_chips(before, (to - 1 - from) * f, e);
        assert(add_chips(middle, f, e) =~= add_chips(before, (to - from) * f, e));
    } else {
        assert((to - from) * f == f) by (nonlinear_arith)
            requires
                to - from == 1,
        ;
    }
}

/// The chips at heights up to `x` of the first `k` players.
pub open spec fn capped(contributed: Seq<u64>, x: int, k: int) -> int
    decreases k,
{
    if k <= 0 {
        0
    } else {
        capped(contributed, x, k - 1) + (if contributed[k - 1] < x {
            contributed[k - 1] as int
        } else {
            x
        })
    }
}

proof fn lemma_capped_step(contributed: Seq<u64>, x: int, k: int)
    requires
        0 <= k <= contributed.len(),
        x > 0,
    ensures
        capped(contributed, x, k) == capped(contributed, x - 1, k) + funders(contributed, x, k),
    decreases k,
{
    if k > 0 {
        lemma_capped_step(contributed, x, k - 1);
    }
}

proof fn lemma_capped_whole(contributed: Seq<u64>, x: int, k: int)
    requires
        0 <= k <= contributed.len(),
        forall|i: int| 0 <= i < k ==> #[trigger] contributed[i] <= x,
    ensures
        capped(contributed, x, k) == sum_to(contributed, k),
    decreases k,
{
    if k > 0 {
        lemma_capped_whole(contributed, x, k - 1);
    }
}

proof fn lemma_capped_zero(contributed: Seq<u64>, k: int)
    requires
        0 <= k <= contributed.len(),
    ensures
        capped(contributed, 0, k) == 0,
    decreases k,
{
    if k > 0 {
        lemma_capped_zero(contributed, k - 1);
    }
}

proof fn lemma_chips_same(a: Seq<PotModel>, b: Seq<PotModel>, k: int)
    requires
        0 <= k <= a.len(),
        k <= b.len(),
        forall|i: int| 0 <= i < k ==> #[trigger] a[i] == b[i],
    ensures
        chips_to(a, k) == chips_to(b, k),
    decreases k,
{
    if k > 0 {
        lemma_chips_same(a, b, k - 1);
    }
}

proof fn lemma_chips_added(pots: Seq<PotModel>, amount: int, eligible: Seq<usize>)
    ensures
        chips(add_chips(pots, amount, eligible)) == chips(pots) + amount,
{
    let after = add_chips(pots, amount, eligible);
    if amount != 0 {
        lemma_chips_same(pots, after, after.len() as int - 1);
    }
}

proof fn lemma_chips_to(contributed: Seq<u64>, folded: Seq<bool>, x: int)
    requires
        x >= 0,
    ensures
        chips(pots_to(contributed, folded, x)) == capped(contributed, x, contributed.len() as int),
    decreases x,
{
    let n = contributed.len() as int;
    if x > 0 {
        lemma_chips_to(contributed, folded, x - 1);
        lemma_chips_added(
            pots_to(contributed, folded, x - 1),
            funders(contributed, x, n),
            contenders(contributed, folded, x, n),
        );
        lemma_capped_step(contributed, x, n);
    } else {
        lemma_capped_zero(contributed, n);
    }
}

/// Chips are conserved: the pots hold exactly what the players put in.
pub proof fn law_pots_hold_every_chip(contributed: Seq<u64>, folded: Seq<bool>)
    ensures
        chips(pots_of(contributed, folded)) == sum(contributed),
{
    let n = contributed.len() as int;
    let top = largest(contributed, n);
    lemma_largest_is_one(contributed, n);
    lemma_chips_to(contributed, folded, top);
    assert forall|i: int| 0 <= i < n implies #[trigger] contributed[i] <= top by {
        lemma_largest(contributed, n, i);
    }
    lemma_capped_whole(contributed, top, n);
}

proof fn lemma_contenders(contributed: Seq<u64>, folded: Seq<bool>, x: int, k: int)
    requires
        0 <= k <= contributed.len(),
        contributed.len() <= usize::MAX,
    ensures
        ({
            let e = contenders(contributed, folded, x, k);
            &&& forall|i: int| 0 <= i < e.len() ==> #[trigger] e[i] < k && contributed[e[i] as int] >= x && !folded[e[i] as int]
            &&& forall|i: int, j: int| 0 <= i < j < e.len() ==> #[trigger] e[i] < #[trigger] e[j]
            &&& forall|s: int|
                0 <= s < k && #[trigger] contributed[s] >= x && !folded[s] ==> e.contains(s as usize)
        }),
    decreases k,
{
    if k > 0 {
        lemma_contenders(contributed, folded, x, k - 1);
        let before = contenders(contributed, folded, x, k - 1);
        let e = contenders(contributed, folded, x, k);
        assert forall|s: int|
            0 <= s < k && #[trigger] contributed[s] >= x && !folded[s] implies e.contains(s as usize) by {
            if s < k - 1 {
                assert(before.contains(s as usize));
                let i = choose|i: int| 0 <= i < before.len() && before[i] == s as usize;
                assert(e[i] == s as usize);
            } else {
                assert(e[e.len() - 1] == s as usize);
            }
        }
    }
}

/// What every pot is like: somebody put chips in it, the players who may win
/// it did not fold, and each of them put in at least one chip at its height.
pub open spec fn sound_pot(contributed: Seq<u64>, folded: Seq<bool>, pot: PotModel) -> bool {
    &&& pot.amount > 0
    &&& forall|i: int|
        0 <= i < pot.eligible.len() ==> #[trigger] pot.eligible[i] < contributed.len()
            && !folded[pot.eligible[i] as int] && contributed[pot.eligible[i] as int] > 0
    &&& forall|i: int, j: int|
        0 <= i < j < pot.eligible.len() ==> #[trigger] pot.eligible[i] < #[trigger] pot.eligible[j]
}

proof fn lemma_sound_to(contributed: Seq<u64>, folded: Seq<bool>, x: int)
    requires
        x >= 0,
        contributed.len() <= usize::MAX,
    ensures
        forall|p: int|
            0 <= p < pots_to(contributed, folded, x).len() ==> sound_pot(
                contributed,
                folded,
                #[trigger] pots_to(contributed, folded, x)[p],
            ),
    decreases x,
{
    if x > 0 {
        lemma_sound_to(contributed, folded, x - 1);
        let n = contributed.len() as int;
        lemma_contenders(contributed, folded, x, n);
        lemma_same_layer(contributed, folded, x, x, n);
        let before = pots_to(contributed, folded, x - 1);
        let after = pots_to(contributed, folded, x);
        assert forall|p: int| 0 <= p < after.len() implies sound_pot(contributed, folded, #[trigger] after[p]) by {
            if p < before.len() {
                assert(sound_pot(contributed, folded, before[p]));
            }
        }
    }
}

/// A folded player may win no pot, and neither may one who put nothing in.
pub proof fn law_pots_exclude_folded_players(contributed: Seq<u64>, folded: Seq<bool>)
    requires
        contributed.len() <= usize::MAX,
    ensures
        forall|p: int|
            0 <= p < pots_of(contributed, folded).len() ==> sound_pot(
                contributed,
                folded,
                #[trigger] pots_of(contributed, folded)[p],
            ),
{
    lemma_largest_is_one(contributed, contributed.len() as int);
    lemma_sound_to(contributed, folded, largest(contributed, contributed.len() as int));
}

/// Splits total per-player contributions into a main pot and any side pots.
///
/// `contributed[i]` is everything player `i` put in across the whole hand, and
/// `folded[i]` is whether they folded. The pots are ordered main pot first.
pub fn build_pots(contributed: &[u64], folded: &[bool]) -> (pots: Vec<Pot>)
    requires
        contributed@.len() == folded@.len(),
        sum(contributed@) <= u64::MAX,
    ensures
        pot_models(pots@) == pots_of(contributed@, folded@),
        chips(pot_models(pots@)) == sum(contributed@),
{
    let n: usize = contributed.len();
    let mut pots: Vec<Pot> = Vec::new();
    let mut previous: u64 = 0;
    let ghost top = largest(contributed@, n as int);
    proof {
        lemma_largest_is_one(contributed@, n as int);
        law_pots_hold_every_chip(contributed@, folded@);
        assert(pot_models(pots@) =~= pots_to(contributed@, folded@, 0));
    }
    loop
        invariant
            n == contributed@.len() == folded@.len(),
            top == largest(contributed@, n as int),
            previous <= top <= u64::MAX,
            sum(contributed@) <= u64::MAX,
            pot_models(pots@) == pots_to(contributed@, folded@, previous as int),
        ensures
            pot_models(pots@) == pots_of(contributed@, folded@),
        decreases top - previous,
    {
        let next = next_level(contributed, previous);
        let level = match next {
            Some(level) => level,
            None => {
                proof {
                    lemma_largest_is_one(contributed@, n as int);
                }
                break ;
            },
        };
        proof {
            let i = choose|i: int| 0 <= i < n && contributed@[i] == level;
            lemma_largest(contributed@, n as int, i);
        }
        let (count, eligible) = layer(contributed, folded, level);
        proof {
            lemma_layer(contributed@, folded@, previous as int, level as int);
            lemma_layer_fits(contributed@, folded@, previous as int, level as int);
            lemma_same_layer(contributed@, folded@, level as int, level as int, n as int);
            assert(count > 0);
            assert((level - previous) * count > 0) by (nonlinear_arith)
                requires
                    level > previous,
                    count > 0,
            ;
        }
        let amount: u64 = (level - previous) * count;
        proof {
            lemma_chips_at_least(pots@, pots@.len() as int);
        }
        deposit(&mut pots, amount, eligible);
        previous = level;
    }
    pots
}

/// The chips of the pots so far and of the next layer are chips put in.
proof fn lemma_layer_fits(contributed: Seq<u64>, folded: Seq<bool>, from: int, to: int)
    requires
        0 <= from < to,
        forall|i: int| 0 <= i < contributed.len() ==> !(from < #[trigger] contributed[i] < to),
    ensures
        chips(pots_to(contributed, folded, from)) + (to - from) * funders(
            contributed,
            to,
            contributed.len() as int,
        ) <= sum(contributed),
        0 <= (to - from) * funders(contributed, to, contributed.len() as int) <= sum(contributed),
{
    let n = contributed.len() as int;
    lemma_layer(contributed, folded, from, to);
    lemma_chips_added(
        pots_to(contributed, folded, from),
        (to - from) * funders(contributed, to, n),
        contenders(contributed, folded, to, n),
    );
    lemma_chips_to(contributed, folded, to);
    lemma_chips_to(contributed, folded, from);
    lemma_capped_at_most(contributed, to, n);
    lemma_capped_at_most(contributed, from, n);
    lemma_same_layer(contributed, folded, to, to, n);
    assert((to - from) * funders(contributed, to, n) >= 0) by (nonlinear_arith)
        requires
            to > from,
            funders(contributed, to, n) >= 0,
    ;
}

proof fn lemma_capped_at_most(contributed: Seq<u64>, x: int, k: int)
    requires
        0 <= k <= contributed.len(),
        x >= 0,
    ensures
        0 <= capped(contributed, x, k) <= sum_to(contributed, k),
    decreases k,
{
    if k > 0 {
        lemma_capped_at_most(contributed, x, k - 1);
    }
}

/// The pots hold at least what any one of them does.
proof fn lemma_chips_at_least(pots: Seq<Pot>, k: int)
    requires
        0 <= k <= pots.len(),
    ensures
        chips_to(pot_models(pots), k) >= 0,
        forall|p: int| 0 <= p < k ==> #[trigger] pots[p].amount <= chips_to(pot_models(pots), k),
    decreases k,
{
    if k > 0 {
        lemma_chips_at_least(pots, k - 1);
    }
}

/// The lowest contribution above `previous`.
fn next_level(contributed: &[u64], previous: u64) -> (next: Option<u64>)
    ensures
        next is None ==> forall|i: int| 0 <= i < contributed@.len() ==> #[trigger] contributed@[i] <= previous,
        next matches Some(level) ==> {
            &&& level > previous
            &&& exists|i: int| 0 <= i < contributed@.len() && contributed@[i] == level
            &&& forall|i: int|
                0 <= i < contributed@.len() ==> !(previous < #[trigger] contributed@[i] < level)
        },
{
    let mut next: Option<u64> = None;
    let mut i: usize = 0;
    while i < contributed.len()
        invariant
            i <= contributed@.len(),
            next is None ==> forall|j: int| 0 <= j < i ==> #[trigger] contributed@[j] <= previous,
            next matches Some(level) ==> {
                &&& level > previous
                &&& exists|j: int| 0 <= j < i && contributed@[j] == level
                &&& forall|j: int| 0 <= j < i ==> !(previous < #[trigger] contributed@[j] < level)
            },
        decreases contributed@.len() - i,
    {
        let amount: u64 = contributed[i];
        if amount > previous {
            match next {
                Some(level) => {
                    if amount < level {
                        next = Some(amount);
                    }
                },
                None => {
                    next = Some(amount);
                },
            }
        }
        i = i + 1;
    }
    next
}

/// Who funds a layer and who contends for it.
fn layer(contributed: &[u64], folded: &[bool], level: u64) -> (result: (u64, Vec<usize>))
    requires
        contributed@.len() == folded@.len(),
        exists|i: int| 0 <= i < contributed@.len() && contributed@[i] == level,
        contributed@.len() <= u64::MAX,
    ensures
        result.0 == funders(contributed@, level as int, contributed@.len() as int),
        result.0 > 0,
        result.1@ == contenders(contributed@, folded@, level as int, contributed@.len() as int),
{
    let mut count: u64 = 0;
    let mut eligible: Vec<usize> = Vec::new();
    let mut i: usize = 0;
    let ghost w = choose|i: int| 0 <= i < contributed@.len() && contributed@[i] == level;
    while i < contributed.len()
        invariant
            i <= contributed@.len() <= u64::MAX,
            contributed@.len() == folded@.len(),
            0 <= w < contributed@.len(),
            contributed@[w] == level,
            count == funders(contributed@, level as int, i as int),
            count <= i,
            i > w ==> count > 0,
            eligible@ == contenders(contributed@, folded@, level as int, i as int),
        decreases contributed@.len() - i,
    {
        if contributed[i] >= level {
            count = count + 1;
            if !folded[i] {
                eligible.push(i);
            }
        }
        i = i + 1;
    }
    (count, eligible)
}

/// Whether two lists of seats are the same.
fn same_seats(a: &Vec<usize>, b: &Vec<usize>) -> (same: bool)
    ensures
        same == (a@ == b@),
{
    if a.len() != b.len() {
        return false;
    }
    let mut i: usize = 0;
    while i < a.len()
        invariant
            i <= a@.len() == b@.len(),
            forall|j: int| 0 <= j < i ==> #[trigger] a@[j] == b@[j],
        decreases a@.len() - i,
    {
        if a[i] != b[i] {
            return false;
        }
        i = i + 1;
    }
    assert(a@ =~= b@);
    true
}

/// Puts chips into the last pot if it has the same contenders, and into a new
/// one otherwise.
fn deposit(pots: &mut Vec<Pot>, amount: u64, eligible: Vec<usize>)
    requires
        amount > 0,
        old(pots)@.len() > 0 ==> old(pots)@.last().amount + amount <= u64::MAX,
    ensures
        pot_models(final(pots)@) == add_chips(pot_models(old(pots)@), amount as int, eligible@),
{
    let n: usize = pots.len();
    let ghost before = pot_models(pots@);
    if n > 0 && same_seats(&pots[n - 1].eligible, &eligible) {
        let merged: u64 = pots[n - 1].amount + amount;
        pots.pop();
        pots.push(Pot { amount: merged, eligible });
        assert(pot_models(pots@) =~= add_chips(before, amount as int, eligible@));
    } else {
        pots.push(Pot { amount, eligible });
        assert(pot_models(pots@) =~= add_chips(before, amount as int, eligible@));
    }
}

/// The chips in the first `k` pots that a seat may win.
pub open spec fn winnable_to(pots: Seq<PotModel>, seat: usize, k: int) -> int
    decreases k,
{
    if k <= 0 {
        0
    } else {
        winnable_to(pots, seat, k - 1) + (if pots[k - 1].eligible.contains(seat) {
            pots[k - 1].amount
        } else {
            0
        })
    }
}

/// The chips a seat may win.
pub open spec fn winnable(pots: Seq<PotModel>, seat: usize) -> int {
    winnable_to(pots, seat, pots.len() as int)
}

proof fn lemma_winnable_same(a: Seq<PotModel>, b: Seq<PotModel>, seat: usize, k: int)
    requires
        0 <= k <= a.len(),
        k <= b.len(),
        forall|i: int| 0 <= i < k ==> #[trigger] a[i] == b[i],
    ensures
        winnable_to(a, seat, k) == winnable_to(b, seat, k),
    decreases k,
{
    if k > 0 {
        lemma_winnable_same(a, b, seat, k - 1);
    }
}

proof fn lemma_winnable_to(contributed: Seq<u64>, folded: Seq<bool>, seat: usize, x: int)
    requires
        contributed.len() <= usize::MAX,
        seat < contributed.len(),
        x >= 0,
    ensures
        winnable(pots_to(contributed, folded, x), seat) == (if folded[seat as int] {
            0
        } else {
            capped(
                contributed,
                if x < contributed[seat as int] {
                    x
                } else {
                    contributed[seat as int] as int
                },
                contributed.len() as int,
            )
        }),
    decreases x,
{
    let n = contributed.len() as int;
    if x > 0 {
        lemma_winnable_to(contributed, folded, seat, x - 1);
        let before = pots_to(contributed, folded, x - 1);
        let after = pots_to(contributed, folded, x);
        let e = contenders(contributed, folded, x, n);
        let f = funders(contributed, x, n);
        lemma_contenders(contributed, folded, x, n);
        lemma_same_layer(contributed, folded, x, x, n);
        lemma_capped_step(contributed, x, n);
        if f != 0 {
            lemma_winnable_same(before, after, seat, after.len() as int - 1);
        }
        if x > contributed[seat as int] {
            assert(!e.contains(seat));
        }
    } else {
        lemma_capped_zero(contributed, n);
    }
}

/// A player who has not folded may win from each player exactly as much as they
/// put in themselves: a short stack wins the chips it covered and no others. One
/// who has folded may win nothing.
pub proof fn law_short_stacks_win_what_they_cover(contributed: Seq<u64>, folded: Seq<bool>, seat: usize)
    requires
        contributed.len() <= usize::MAX,
        seat < contributed.len(),
    ensures
        winnable(pots_of(contributed, folded), seat) == (if folded[seat as int] {
            0
        } else {
            capped(contributed, contributed[seat as int] as int, contributed.len() as int)
        }),
{
    let n = contributed.len() as int;
    lemma_largest_is_one(contributed, n);
    lemma_largest(contributed, n, seat as int);
    lemma_winnable_to(contributed, folded, seat, largest(contributed, n));
}

proof fn lemma_contested_to(contributed: Seq<u64>, folded: Seq<bool>, top: int, x: int)
    requires
        contributed.len() <= usize::MAX,
        0 <= top < contributed.len(),
        !folded[top],
        0 <= x <= contributed[top],
    ensures
        forall|p: int|
            0 <= p < pots_to(contributed, folded, x).len() ==> (#[trigger] pots_to(
                contributed,
                folded,
                x,
            )[p]).eligible.contains(top as usize),
    decreases x,
{
    if x > 0 {
        lemma_contested_to(contributed, folded, top, x - 1);
        let n = contributed.len() as int;
        lemma_contenders(contributed, folded, x, n);
        let before = pots_to(contributed, folded, x - 1);
        let after = pots_to(contributed, folded, x);
        assert(contributed[top] >= x);
        assert forall|p: int| 0 <= p < after.len() implies (#[trigger] after[p]).eligible.contains(top as usize) by {
            if p < before.len() {
                assert(before[p].eligible.contains(top as usize));
            }
        }
    }
}

/// While the largest contributor has not folded, every pot can be won.
pub proof fn law_every_pot_can_be_won(contributed: Seq<u64>, folded: Seq<bool>, top: int)
    requires
        contributed.len() <= usize::MAX,
        0 <= top < contributed.len(),
        !folded[top],
        contributed[top] == largest(contributed, contributed.len() as int),
    ensures
        forall|p: int|
            0 <= p < pots_of(contributed, folded).len() ==> (#[trigger] pots_of(
                contributed,
                folded,
            )[p]).eligible.contains(top as usize),
{
    lemma_contested_to(contributed, folded, top, contributed[top] as int);
}

/// Whether the seats of a later pot are some but not all of those of an earlier
/// one.
pub open spec fn narrows(earlier: Seq<usize>, later: Seq<usize>) -> bool {
    &&& later.len() < earlier.len()
    &&& forall|seat: usize| later.contains(seat) ==> #[trigger] earlier.contains(seat)
}

/// Deeper layers have no more contenders, and as many only where they are the
/// same.
proof fn lemma_fewer_contenders(contributed: Seq<u64>, folded: Seq<bool>, x: int, y: int, k: int)
    requires
        x <= y,
        0 <= k <= contributed.len(),
    ensures
        ({
            let (e, f) = (contenders(contributed, folded, x, k), contenders(contributed, folded, y, k));
            &&& f.len() <= e.len()
            &&& f.len() == e.len() ==> f == e
        }),
    decreases k,
{
    if k > 0 {
        lemma_fewer_contenders(contributed, folded, x, y, k - 1);
    }
}

proof fn lemma_contenders_nest(contributed: Seq<u64>, folded: Seq<bool>, x: int, y: int)
    requires
        x <= y,
        contributed.len() <= usize::MAX,
    ensures
        forall|seat: usize|
            contenders(contributed, folded, y, contributed.len() as int).contains(seat) ==> #[trigger] contenders(
                contributed,
                folded,
                x,
                contributed.len() as int,
            ).contains(seat),
{
    let n = contributed.len() as int;
    lemma_contenders(contributed, folded, x, n);
    lemma_contenders(contributed, folded, y, n);
    let f = contenders(contributed, folded, y, n);
    assert forall|seat: usize| f.contains(seat) implies #[trigger] contenders(contributed, folded, x, n).contains(seat) by {
        let i = choose|i: int| 0 <= i < f.len() && f[i] == seat;
        assert(contributed[f[i] as int] >= x);
    }
}

proof fn lemma_pots_nest(contributed: Seq<u64>, folded: Seq<bool>, x: int)
    requires
        contributed.len() <= usize::MAX,
    ensures
        ({
            let pots = pots_to(contributed, folded, x);
            let n = contributed.len() as int;
            &&& forall|p: int|
                0 <= p < pots.len() ==> exists|z: int|
                    z <= x && (#[trigger] pots[p]).eligible == #[trigger] contenders(contributed, folded, z, n)
            &&& forall|p: int, q: int|
                0 <= p < q < pots.len() ==> narrows((#[trigger] pots[p]).eligible, (#[trigger] pots[q]).eligible)
        }),
    decreases x,
{
    let n = contributed.len() as int;
    if x > 0 {
        lemma_pots_nest(contributed, folded, x - 1);
        let before = pots_to(contributed, folded, x - 1);
        let pots = pots_to(contributed, folded, x);
        let e = contenders(contributed, folded, x, n);
        assert forall|p: int| 0 <= p < pots.len() implies exists|z: int|
            z <= x && (#[trigger] pots[p]).eligible == #[trigger] contenders(contributed, folded, z, n) by {
            if p < before.len() {
                assert(pots[p].eligible == before[p].eligible);
                let z = choose|z: int|
                    z <= x - 1 && before[p].eligible == #[trigger] contenders(contributed, folded, z, n);
                assert(pots[p].eligible == contenders(contributed, folded, z, n));
            } else {
                assert(pots[p].eligible == e);
            }
        }
        assert forall|p: int, q: int| 0 <= p < q < pots.len() implies narrows(
            (#[trigger] pots[p]).eligible,
            (#[trigger] pots[q]).eligible,
        ) by {
            assert(pots[p].eligible == before[p].eligible);
            if q < before.len() {
                assert(pots[q].eligible == before[q].eligible);
                assert(narrows(before[p].eligible, before[q].eligible));
            } else {
                let last = before.len() as int - 1;
                let z = choose|z: int|
                    z <= x - 1 && before[p].eligible == #[trigger] contenders(contributed, folded, z, n);
                lemma_fewer_contenders(contributed, folded, z, x, n);
                lemma_contenders_nest(contributed, folded, z, x);
                assert(before[last].eligible != e);
                if p < last {
                    assert(narrows(before[p].eligible, before[last].eligible));
                    let w = choose|w: int|
                        w <= x - 1 && before[last].eligible == #[trigger] contenders(contributed, folded, w, n);
                    lemma_fewer_contenders(contributed, folded, w, x, n);
                }
            }
        }
    }
}

/// Every pot is contested by some of the seats that contest the pot before it,
/// and not by all of them.
pub proof fn law_later_pots_have_fewer_seats(contributed: Seq<u64>, folded: Seq<bool>, p: int, q: int)
    requires
        contributed.len() <= usize::MAX,
        0 <= p < q < pots_of(contributed, folded).len(),
    ensures
        narrows(pots_of(contributed, folded)[p].eligible, pots_of(contributed, folded)[q].eligible),
{
    lemma_pots_nest(contributed, folded, largest(contributed, contributed.len() as int));
}

/// How an odd chip that cannot be split evenly is assigned.
///
/// Real card rooms award it to the first eligible seat left of the button.
/// Callers that care pass [`OddChip::ToSeat`] with that seat; the default is
/// deterministic rather than realistic.
#[derive(Debug, Clone, Copy, PartialEq, Eq, Structural)]
pub enum OddChip {
    /// Give the remainder to the lowest-numbered winning seat.
    ToLowestSeat,
    /// Give the remainder to the first winning seat at or after this one,
    /// wrapping around. Use the seat left of the button to match card-room
    /// rules.
    ToSeat(usize),
}

impl Default for OddChip {
    fn default() -> (odd_chip: OddChip)
        ensures
            odd_chip == OddChip::ToLowestSeat,
    {
        OddChip::ToLowestSeat
    }
}

impl OddChip {
    /// The seat the odd chips are counted from.
    pub open spec fn start(self) -> int {
        match self {
            OddChip::ToLowestSeat => 0,
            OddChip::ToSeat(seat) => seat as int,
        }
    }
}

/// How far a seat lies after `start` at a table of `n`, going round.
pub open spec fn distance(seat: int, start: int, n: int) -> int {
    (seat - start) % n
}

/// Whether a seat holds one of the best hands that may win a pot.
pub open spec fn wins(pot: PotModel, ranks: Seq<Option<HandRank>>, seat: int) -> bool {
    &&& 0 <= seat < ranks.len()
    &&& pot.eligible.contains(seat as usize)
    &&& ranks[seat] is Some
    &&& forall|other: int|
        0 <= other < ranks.len() && #[trigger] pot.eligible.contains(other as usize) && ranks[other] is Some
            ==> ranks[other]->0@ <= ranks[seat]->0@
}

/// The seats that share a pot.
pub open spec fn winners(pot: PotModel, ranks: Seq<Option<HandRank>>) -> Set<int> {
    Set::new(|seat: int| wins(pot, ranks, seat))
}

/// The seats of a set that come before a seat when counting from `start`.
pub open spec fn ahead(seats: Set<int>, seat: int, start: int, n: int) -> Set<int> {
    seats.filter(|other: int| distance(other, start, n) < distance(seat, start, n))
}

/// What a pot pays a seat: an even share to each winner, and the whole remainder
/// to the winner first in line.
pub open spec fn payment(pot: PotModel, ranks: Seq<Option<HandRank>>, start: int, seat: int) -> int {
    let sharing = winners(pot, ranks);
    if !sharing.contains(seat) {
        0
    } else {
        pot.amount / (sharing.len() as int) + (if ahead(sharing, seat, start, ranks.len() as int).len() == 0 {
            pot.amount % (sharing.len() as int)
        } else {
            0
        })
    }
}

/// What the first `k` pots pay a seat.
pub open spec fn paid_to(pots: Seq<PotModel>, ranks: Seq<Option<HandRank>>, start: int, seat: int, k: int) -> int
    decreases k,
{
    if k <= 0 {
        0
    } else {
        paid_to(pots, ranks, start, seat, k - 1) + payment(pots[k - 1], ranks, start, seat)
    }
}

/// What all the pots pay a seat.
pub open spec fn paid(pots: Seq<PotModel>, ranks: Seq<Option<HandRank>>, odd_chip: OddChip, seat: int) -> int {
    paid_to(pots, ranks, odd_chip.start(), seat, pots.len() as int)
}

/// Whether a pot can be awarded: its seats are at the table and listed once,
/// and one of them holds a hand.
pub open spec fn awardable(pot: PotModel, ranks: Seq<Option<HandRank>>) -> bool {
    &&& pot.eligible.no_duplicates()
    &&& forall|i: int| 0 <= i < pot.eligible.len() ==> #[trigger] pot.eligible[i] < ranks.len()
    &&& exists|i: int| 0 <= i < pot.eligible.len() && ranks[#[trigger] pot.eligible[i] as int] is Some
}

/// Total chips held across a set of pots.
pub fn total(pots: &[Pot]) -> (total: u64)
    requires
        chips(pot_models(pots@)) <= u64::MAX,
    ensures
        total == chips(pot_models(pots@)),
{
    let mut total: u64 = 0;
    let mut i: usize = 0;
    let ghost models = pot_models(pots@);
    while i < pots.len()
        invariant
            i <= pots@.len(),
            models == pot_models(pots@),
            chips(models) <= u64::MAX,
            total == chips_to(models, i as int),
        decreases pots@.len() - i,
    {
        proof {
            lemma_chips_grow(pots@, i + 1, pots@.len() as int);
        }
        total = total + pots[i].amount;
        i = i + 1;
    }
    total
}

proof fn lemma_chips_grow(pots: Seq<Pot>, j: int, k: int)
    requires
        0 <= j <= k <= pots.len(),
    ensures
        chips_to(pot_models(pots), j) <= chips_to(pot_models(pots), k),
    decreases k,
{
    if j < k {
        lemma_chips_grow(pots, j, k - 1);
    }
}

/// The seats of a pot that hold its best hand, in the order they are listed.
fn pot_winners(pot: &Pot, ranks: &[Option<HandRank>]) -> (list: Vec<usize>)
    requires
        awardable(pot@, ranks@),
    ensures
        list@.len() > 0,
        list@.no_duplicates(),
        forall|i: int| 0 <= i < list@.len() ==> #[trigger] list@[i] < ranks@.len(),
        forall|seat: int| #[trigger] winners(pot@, ranks@).contains(seat) <==> 0 <= seat < ranks@.len() && list@.contains(seat as usize),
{
    let ghost model = pot@;
    let seats: usize = ranks.len();
    let mut best: Option<HandRank> = None;
    let mut i: usize = 0;
    while i < pot.eligible.len()
        invariant
            i <= pot.eligible@.len(),
            model == pot@,
            awardable(model, ranks@),
            best is None ==> forall|j: int|
                0 <= j < i ==> ranks@[#[trigger] pot.eligible@[j] as int] is None,
            best matches Some(rank) ==> {
                &&& exists|j: int| 0 <= j < i && ranks@[#[trigger] pot.eligible@[j] as int] == Some(rank)
                &&& forall|j: int|
                    0 <= j < i && ranks@[#[trigger] pot.eligible@[j] as int] is Some
                        ==> ranks@[pot.eligible@[j] as int]->0@ <= rank@
            },
        decreases pot.eligible@.len() - i,
    {
        let seat: usize = pot.eligible[i];
        if let Some(rank) = ranks[seat] {
            let better = match best {
                None => true,
                Some(top) => rank.to_bits() > top.to_bits(),
            };
            if better {
                best = Some(rank);
                assert(ranks@[pot.eligible@[i as int] as int] == Some(rank));
            }
        }
        i = i + 1;
    }
    let mut list: Vec<usize> = Vec::new();
    if let Some(top) = best {
        let mut k: usize = 0;
        let ghost w = choose|j: int| 0 <= j < pot.eligible@.len() && ranks@[#[trigger] pot.eligible@[j] as int] == Some(top);
        while k < pot.eligible.len()
            invariant
                k <= pot.eligible@.len(),
                model == pot@,
                awardable(model, ranks@),
                0 <= w < pot.eligible@.len(),
                ranks@[pot.eligible@[w] as int] == Some(top),
                k > w ==> list@.len() > 0,
                forall|j: int|
                    0 <= j < pot.eligible@.len() && ranks@[#[trigger] pot.eligible@[j] as int] is Some
                        ==> ranks@[pot.eligible@[j] as int]->0@ <= top@,
                list@.no_duplicates(),
                forall|a: int|
                    0 <= a < list@.len() ==> pot.eligible@.take(k as int).contains(#[trigger] list@[a])
                        && ranks@[list@[a] as int] is Some && ranks@[list@[a] as int]->0@ == top@,
                forall|j: int|
                    0 <= j < k && ranks@[#[trigger] pot.eligible@[j] as int] is Some
                        && ranks@[pot.eligible@[j] as int]->0@ == top@ ==> list@.contains(pot.eligible@[j]),
            decreases pot.eligible@.len() - k,
        {
            let seat: usize = pot.eligible[k];
            let ghost before = list@;
            let ghost shorter = pot.eligible@.take(k as int);
            let ghost longer = pot.eligible@.take(k + 1);
            proof {
                assert(longer =~= shorter.push(seat));
                assert(longer[k as int] == seat);
                assert(!shorter.contains(seat)) by {
                    if shorter.contains(seat) {
                        let j = choose|j: int| 0 <= j < shorter.len() && shorter[j] == seat;
                        assert(pot.eligible@[j] == pot.eligible@[k as int]);
                    }
                }
                assert forall|x: usize| shorter.contains(x) implies longer.contains(x) by {
                    let j = choose|j: int| 0 <= j < shorter.len() && shorter[j] == x;
                    assert(longer[j] == x);
                }
            }
            if let Some(rank) = ranks[seat] {
                if rank.to_bits() == top.to_bits() {
                    list.push(seat);
                    proof {
                        assert(list@[list@.len() - 1] == seat);
                    }
                }
            }
            proof {
                assert forall|j: int|
                    0 <= j < k + 1 && ranks@[#[trigger] pot.eligible@[j] as int] is Some
                        && ranks@[pot.eligible@[j] as int]->0@ == top@ implies list@.contains(pot.eligible@[j]) by {
                    if j < k {
                        assert(before.contains(pot.eligible@[j]));
                        let a = choose|a: int| 0 <= a < before.len() && before[a] == pot.eligible@[j];
                        assert(list@[a] == pot.eligible@[j]);
                    }
                }
            }
            k = k + 1;
        }
        proof {
            assert(pot.eligible@.take(k as int) =~= pot.eligible@);
            let holder = pot.eligible@[w] as int;
            assert forall|seat: int| #[trigger] winners(model, ranks@).contains(seat) implies 0 <= seat < ranks@.len() && list@.contains(seat as usize) by {
                let j = choose|j: int| 0 <= j < pot.eligible@.len() && pot.eligible@[j] == seat as usize;
                assert(model.eligible.contains(holder as usize));
            }
            assert forall|seat: int| 0 <= seat < ranks@.len() && list@.contains(seat as usize) implies #[trigger] winners(model, ranks@).contains(seat) by {
                let a = choose|a: int| 0 <= a < list@.len() && list@[a] == seat as usize;
                assert(pot.eligible@.contains(list@[a]));
                assert forall|other: int|
                    0 <= other < ranks@.len() && #[trigger] model.eligible.contains(other as usize) && ranks@[other] is Some
                        implies ranks@[other]->0@ <= ranks@[seat]->0@ by {
                    let j = choose|j: int| 0 <= j < pot.eligible@.len() && pot.eligible@[j] == other as usize;
                    assert(ranks@[pot.eligible@[j] as int] is Some);
                }
            }
            assert forall|a: int| 0 <= a < list@.len() implies #[trigger] list@[a] < ranks@.len() by {
                assert(pot.eligible@.contains(list@[a]));
            }
        }
    }
    list
}

/// Distances from a start are worked out from seats taken round the table once.
proof fn lemma_distance(seat: int, start: int, n: int)
    requires
        0 <= seat < n,
        0 <= start,
    ensures
        distance(seat, start, n) == (if seat >= start % n {
            seat - start % n
        } else {
            seat - start % n + n
        }),
        0 <= distance(seat, start, n) < n,
{
    vstd::arithmetic::div_mod::lemma_sub_mod_noop_right(seat, start, n);
    let s = start % n;
    vstd::arithmetic::div_mod::lemma_mod_bound(start, n);
    if seat >= s {
        vstd::arithmetic::div_mod::lemma_small_mod((seat - s) as nat, n as nat);
    } else {
        vstd::arithmetic::div_mod::lemma_mod_add_multiples_vanish(seat - s, n);
        vstd::arithmetic::div_mod::lemma_small_mod((seat - s + n) as nat, n as nat);
    }
}

/// The seats of a set that stand before the `r`-th in line.
spec fn first_in_line(seats: Set<int>, r: int, start: int, n: int) -> Set<int> {
    seats.filter(|seat: int| ahead(seats, seat, start, n).len() < r)
}

/// The seat of a set that stands last in line.
proof fn last_in_line(seats: Set<int>, start: int, n: int) -> (last: int)
    requires
        seats.finite(),
        seats.len() > 0,
    ensures
        seats.contains(last),
        forall|seat: int| #[trigger] seats.contains(seat) ==> distance(seat, start, n) <= distance(last, start, n),
    decreases seats.len(),
{
    let some = seats.choose();
    let rest = seats.remove(some);
    if rest.len() == 0 {
        assert(rest =~= Set::<int>::empty());
        assert forall|seat: int| #[trigger] seats.contains(seat) implies seat == some by {
            assert(!rest.contains(seat));
        }
        some
    } else {
        let other = last_in_line(rest, start, n);
        assert forall|seat: int| #[trigger] seats.contains(seat) implies seat == some || rest.contains(seat) by {}
        if distance(some, start, n) >= distance(other, start, n) {
            some
        } else {
            other
        }
    }
}

/// As many seats stand before the `r`-th in line as there are, up to `r`.
proof fn lemma_first_in_line(seats: Set<int>, r: int, start: int, n: int)
    requires
        seats.finite(),
        0 <= r,
        0 <= start,
        forall|seat: int| #[trigger] seats.contains(seat) ==> 0 <= seat < n,
    ensures
        first_in_line(seats, r, start, n).finite(),
        first_in_line(seats, r, start, n).len() == (if r < seats.len() {
            r
        } else {
            seats.len() as int
        }),
    decreases seats.len(),
{
    if seats.len() == 0 {
        assert(first_in_line(seats, r, start, n) =~= Set::<int>::empty());
    } else {
        let last = last_in_line(seats, start, n);
        let rest = seats.remove(last);
        lemma_first_in_line(rest, r, start, n);
        assert forall|seat: int| #[trigger] rest.contains(seat) implies ahead(seats, seat, start, n) == ahead(
            rest,
            seat,
            start,
            n,
        ) by {
            assert(ahead(seats, seat, start, n) =~= ahead(rest, seat, start, n));
        }
        assert(ahead(seats, last, start, n) =~= rest) by {
            assert forall|seat: int| #[trigger] rest.contains(seat) implies distance(seat, start, n)
                < distance(last, start, n) by {
                lemma_distance(seat, start, n);
                lemma_distance(last, start, n);
            }
        }
        let before = first_in_line(rest, r, start, n);
        let after = first_in_line(seats, r, start, n);
        if seats.len() - 1 < r {
            assert(after =~= before.insert(last));
        } else {
            assert(after =~= before);
        }
    }
}

/// What a pot pays the first `k` seats.
pub open spec fn paid_out(pot: PotModel, ranks: Seq<Option<HandRank>>, start: int, k: int) -> int
    decreases k,
{
    if k <= 0 {
        0
    } else {
        paid_out(pot, ranks, start, k - 1) + payment(pot, ranks, start, k - 1)
    }
}

/// The members of a set below a bound.
spec fn seats_below(seats: Set<int>, k: int) -> Set<int> {
    seats.filter(|seat: int| seat < k)
}

proof fn lemma_seats_below(seats: Set<int>, k: int)
    requires
        seats.finite(),
        forall|seat: int| #[trigger] seats.contains(seat) ==> 0 <= seat,
        k > 0,
    ensures
        seats_below(seats, k).finite(),
        seats_below(seats, k - 1).finite(),
        seats_below(seats, k).len() == seats_below(seats, k - 1).len() + (if seats.contains(k - 1) {
            1int
        } else {
            0
        }),
{
    seats.lemma_len_filter(|seat: int| seat < k);
    seats.lemma_len_filter(|seat: int| seat < k - 1);
    if seats.contains(k - 1) {
        assert(seats_below(seats, k) =~= seats_below(seats, k - 1).insert(k - 1));
    } else {
        assert(seats_below(seats, k) =~= seats_below(seats, k - 1));
    }
}

proof fn lemma_paid_out(pot: PotModel, ranks: Seq<Option<HandRank>>, start: int, k: int)
    requires
        winners(pot, ranks).finite(),
        0 <= k <= ranks.len(),
    ensures
        ({
            let sharing = winners(pot, ranks);
            let count = sharing.len() as int;
            let first = first_in_line(sharing, 1, start, ranks.len() as int);
            paid_out(pot, ranks, start, k) == (pot.amount / count) * seats_below(sharing, k).len() + (pot.amount
                % count) * seats_below(first, k).len()
        }),
    decreases k,
{
    let sharing = winners(pot, ranks);
    let count = sharing.len() as int;
    let n = ranks.len() as int;
    let first = first_in_line(sharing, 1, start, n);
    let share = pot.amount / count;
    let rest = pot.amount % count;
    sharing.lemma_len_filter(|seat: int| ahead(sharing, seat, start, n).len() < 1);
    if k > 0 {
        lemma_paid_out(pot, ranks, start, k - 1);
        lemma_seats_below(sharing, k);
        lemma_seats_below(first, k);
        let before = seats_below(sharing, k - 1).len() as int;
        let odd = seats_below(first, k - 1).len() as int;
        assert(share * (before + 1) == share * before + share) by (nonlinear_arith);
        assert(rest * (odd + 1) == rest * odd + rest) by (nonlinear_arith);
    } else {
        assert(seats_below(sharing, k) =~= Set::<int>::empty());
        assert(seats_below(first, k) =~= Set::<int>::empty());
        assert(share * 0 == 0 && rest * 0 == 0);
    }
}

/// A pot is paid out in full, and nobody is paid more than it holds.
pub proof fn law_a_pot_is_paid_out_in_full(pot: PotModel, ranks: Seq<Option<HandRank>>, start: int)
    requires
        awardable(pot, ranks),
        0 <= start,
        0 <= pot.amount,
        ranks.len() <= usize::MAX,
    ensures
        paid_out(pot, ranks, start, ranks.len() as int) == pot.amount,
        forall|seat: int| 0 <= #[trigger] payment(pot, ranks, start, seat) <= pot.amount,
{
    let n = ranks.len() as int;
    let sharing = winners(pot, ranks);
    lemma_winners_exist(pot, ranks);
    let count = sharing.len() as int;
    let r = pot.amount % count;
    let share = pot.amount / count;
    vstd::arithmetic::div_mod::lemma_fundamental_div_mod(pot.amount, count);
    vstd::arithmetic::div_mod::lemma_mod_bound(pot.amount, count);
    vstd::arithmetic::div_mod::lemma_div_pos_is_pos(pot.amount, count);
    lemma_first_in_line(sharing, 1, start, n);
    lemma_paid_out(pot, ranks, start, n);
    let first = first_in_line(sharing, 1, start, n);
    assert(seats_below(sharing, n) =~= sharing);
    assert(seats_below(first, n) =~= first);
    assert(share * count == count * share && r * 1 == r) by (nonlinear_arith);
    assert(share + r <= pot.amount) by (nonlinear_arith)
        requires
            count >= 1,
            share >= 0,
            r >= 0,
            pot.amount == count * share + r,
    ;
    assert forall|seat: int| 0 <= #[trigger] payment(pot, ranks, start, seat) <= pot.amount by {}
}

/// What cannot be split evenly goes to one winner: the first at or after the
/// seat that counting starts from. Every other winner has an even share.
pub proof fn law_the_remainder_goes_to_one_winner(pot: PotModel, ranks: Seq<Option<HandRank>>, start: int) -> (first: int)
    requires
        awardable(pot, ranks),
        0 <= start,
        0 <= pot.amount,
        ranks.len() <= usize::MAX,
    ensures
        wins(pot, ranks, first),
        payment(pot, ranks, start, first) == pot.amount / (winners(pot, ranks).len() as int) + pot.amount % (
        winners(pot, ranks).len() as int),
        forall|other: int|
            other != first && #[trigger] wins(pot, ranks, other) ==> {
                &&& distance(first, start, ranks.len() as int) < distance(other, start, ranks.len() as int)
                &&& payment(pot, ranks, start, other) == pot.amount / (winners(pot, ranks).len() as int)
            },
{
    let n = ranks.len() as int;
    let sharing = winners(pot, ranks);
    lemma_winners_exist(pot, ranks);
    lemma_first_in_line(sharing, 1, start, n);
    let line = first_in_line(sharing, 1, start, n);
    let first = line.choose();
    assert(line.contains(first));
    let before = ahead(sharing, first, start, n);
    sharing.lemma_len_filter(|other: int| distance(other, start, n) < distance(first, start, n));
    assert forall|other: int| other != first && #[trigger] wins(pot, ranks, other) implies distance(first, start, n)
        < distance(other, start, n) && payment(pot, ranks, start, other) == pot.amount / (sharing.len() as int) by {
        assert(sharing.contains(other));
        assert(!before.contains(other)) by {
            if before.contains(other) {
                assert(before.len() > 0);
            }
        }
        lemma_distance(first, start, n);
        lemma_distance(other, start, n);
        let ahead_of_other = ahead(sharing, other, start, n);
        sharing.lemma_len_filter(|seat: int| distance(seat, start, n) < distance(other, start, n));
        assert(ahead_of_other.contains(first));
        assert(ahead_of_other.len() > 0);
    }
    first
}

/// The seats of a list as integers.
spec fn seat_set(list: Seq<usize>) -> Set<int> {
    Set::new(|seat: int| 0 <= seat <= usize::MAX && list.contains(seat as usize))
}

proof fn lemma_seat_set(list: Seq<usize>)
    requires
        list.no_duplicates(),
    ensures
        seat_set(list).finite(),
        seat_set(list).len() == list.len(),
    decreases list.len(),
{
    if list.len() == 0 {
        assert(seat_set(list) =~= Set::<int>::empty());
    } else {
        let rest = list.drop_last();
        lemma_seat_set(rest);
        lemma_seat_set_push(rest, list.last());
        assert(rest.push(list.last()) =~= list);
        assert(!rest.contains(list.last())) by {
            if rest.contains(list.last()) {
                let i = choose|i: int| 0 <= i < rest.len() && rest[i] == list.last();
                assert(list[i] == list[list.len() - 1]);
            }
        }
    }
}

proof fn lemma_seat_set_push(list: Seq<usize>, seat: usize)
    ensures
        seat_set(list.push(seat)) == seat_set(list).insert(seat as int),
{
    let longer = list.push(seat);
    assert forall|s: int| seat_set(longer).contains(s) == seat_set(list).insert(seat as int).contains(s) by {
        if 0 <= s <= usize::MAX {
            if longer.contains(s as usize) {
                let i = choose|i: int| 0 <= i < longer.len() && longer[i] == s as usize;
                if i < list.len() {
                    assert(list[i] == s as usize);
                }
            }
            if list.contains(s as usize) {
                let i = choose|i: int| 0 <= i < list.len() && list[i] == s as usize;
                assert(longer[i] == s as usize);
            }
            assert(longer[list.len() as int] == seat);
        }
    }
    assert(seat_set(longer) =~= seat_set(list).insert(seat as int));
}

/// Somebody wins an awardable pot.
proof fn lemma_winners_exist(pot: PotModel, ranks: Seq<Option<HandRank>>)
    requires
        awardable(pot, ranks),
        ranks.len() <= usize::MAX,
    ensures
        winners(pot, ranks).finite(),
        winners(pot, ranks).len() > 0,
{
    let sharing = winners(pot, ranks);
    let seats = seat_set(pot.eligible);
    lemma_seat_set(pot.eligible);
    assert(sharing.subset_of(seats));
    vstd::set_lib::lemma_len_subset(sharing, seats);
    let i = choose|i: int| 0 <= i < pot.eligible.len() && ranks[#[trigger] pot.eligible[i] as int] is Some;
    let best = best_holder(pot, ranks, pot.eligible.len() as int, i);
    assert(sharing.contains(best));
}

/// The seat with the best hand among the first `k` listed.
proof fn best_holder(pot: PotModel, ranks: Seq<Option<HandRank>>, k: int, i: int) -> (best: int)
    requires
        awardable(pot, ranks),
        ranks.len() <= usize::MAX,
        0 <= i < k <= pot.eligible.len(),
        ranks[pot.eligible[i] as int] is Some,
    ensures
        0 <= best < ranks.len(),
        ranks[best] is Some,
        pot.eligible.contains(best as usize),
        forall|j: int|
            0 <= j < k && ranks[#[trigger] pot.eligible[j] as int] is Some ==> ranks[pot.eligible[j] as int]->0@
                <= ranks[best]->0@,
        k == pot.eligible.len() ==> wins(pot, ranks, best),
    decreases k,
{
    let last = pot.eligible[k - 1] as int;
    let earlier = exists|j: int| 0 <= j < k - 1 && ranks[#[trigger] pot.eligible[j] as int] is Some;
    let best = if earlier {
        let j = choose|j: int| 0 <= j < k - 1 && ranks[#[trigger] pot.eligible[j] as int] is Some;
        let before = best_holder(pot, ranks, k - 1, j);
        if ranks[last] is Some && ranks[last]->0@ > ranks[before]->0@ {
            last
        } else {
            before
        }
    } else {
        last
    };
    assert(pot.eligible[k - 1] as int == last);
    assert(pot.eligible.contains(last as usize));
    if k == pot.eligible.len() {
        assert forall|other: int|
            0 <= other < ranks.len() && #[trigger] pot.eligible.contains(other as usize) && ranks[other] is Some
                implies ranks[other]->0@ <= ranks[best]->0@ by {
            let j = choose|j: int| 0 <= j < pot.eligible.len() && pot.eligible[j] == other as usize;
            assert(ranks[pot.eligible[j] as int] is Some);
        }
    }
    best
}

/// How far a seat lies after `start` at a table of `n`, going round.
fn distance_from(seat: usize, start: usize, n: usize) -> (d: usize)
    requires
        seat < n,
    ensures
        d == distance(seat as int, start as int, n as int),
{
    let s: usize = start % n;
    proof {
        lemma_distance(seat as int, start as int, n as int);
    }
    if seat >= s {
        seat - s
    } else {
        seat + (n - s)
    }
}

/// How many seats of a list come before a seat when counting from `start`.
fn count_ahead(list: &Vec<usize>, seat: usize, start: usize, n: usize) -> (count: u64)
    requires
        list@.no_duplicates(),
        list@.len() <= u64::MAX,
        seat < n,
        forall|i: int| 0 <= i < list@.len() ==> #[trigger] list@[i] < n,
    ensures
        count == ahead(seat_set(list@), seat as int, start as int, n as int).len(),
{
    let mut count: u64 = 0;
    let mut i: usize = 0;
    let d: usize = distance_from(seat, start, n);
    proof {
        assert(ahead(seat_set(list@.take(0)), seat as int, start as int, n as int) =~= Set::<int>::empty());
    }
    while i < list.len()
        invariant
            i <= list@.len() <= u64::MAX,
            count <= i,
            list@.no_duplicates(),
            d == distance(seat as int, start as int, n as int),
            forall|j: int| 0 <= j < list@.len() ==> #[trigger] list@[j] < n,
            ahead(seat_set(list@.take(i as int)), seat as int, start as int, n as int).finite(),
            count == ahead(seat_set(list@.take(i as int)), seat as int, start as int, n as int).len(),
        decreases list@.len() - i,
    {
        let other: usize = list[i];
        let ghost shorter = list@.take(i as int);
        let ghost before = ahead(seat_set(shorter), seat as int, start as int, n as int);
        let ghost after = ahead(seat_set(shorter.push(other)), seat as int, start as int, n as int);
        proof {
            lemma_seat_set_push(shorter, other);
            assert(list@.take(i + 1) =~= shorter.push(other));
            assert(!shorter.contains(other)) by {
                if shorter.contains(other) {
                    let j = choose|j: int| 0 <= j < shorter.len() && shorter[j] == other;
                    assert(list@[j] == list@[i as int]);
                }
            }
        }
        if distance_from(other, start, n) < d {
            assert(after =~= before.insert(other as int));
            count = count + 1;
        } else {
            assert(after =~= before);
        }
        i = i + 1;
    }
    assert(list@.take(i as int) =~= list@);
    count
}

proof fn lemma_paid_at_most(pots: Seq<Pot>, ranks: Seq<Option<HandRank>>, start: int, seat: int, k: int)
    requires
        0 <= k <= pots.len(),
        0 <= start,
        ranks.len() <= usize::MAX,
        forall|p: int| 0 <= p < pots.len() ==> awardable((#[trigger] pots[p])@, ranks),
    ensures
        0 <= paid_to(pot_models(pots), ranks, start, seat, k) <= chips_to(pot_models(pots), k),
    decreases k,
{
    if k > 0 {
        lemma_paid_at_most(pots, ranks, start, seat, k - 1);
        assert(awardable(pots[k - 1]@, ranks));
        law_a_pot_is_paid_out_in_full(pots[k - 1]@, ranks, start);
        assert(payment(pots[k - 1]@, ranks, start, seat) <= pots[k - 1].amount);
    }
}

/// Distributes every pot to its best eligible hand, splitting ties.
///
/// `ranks[i]` is player `i`'s showdown hand, or `None` if they folded or are
/// otherwise not at showdown. Returns per-player winnings, which sum to the
/// total in `pots`.
pub fn award(pots: &[Pot], ranks: &[Option<HandRank>], odd_chip: OddChip) -> (winnings: Vec<u64>)
    requires
        forall|p: int| 0 <= p < pots@.len() ==> awardable((#[trigger] pots@[p])@, ranks@),
        chips(pot_models(pots@)) <= u64::MAX,
        ranks@.len() <= u64::MAX,
    ensures
        winnings@.len() == ranks@.len(),
        forall|seat: int|
            0 <= seat < ranks@.len() ==> #[trigger] winnings@[seat] == paid(
                pot_models(pots@),
                ranks@,
                odd_chip,
                seat,
            ),
        sum(winnings@) == chips(pot_models(pots@)),
{
    let n: usize = ranks.len();
    let ghost models = pot_models(pots@);
    let start: usize = match odd_chip {
        OddChip::ToLowestSeat => 0,
        OddChip::ToSeat(seat) => seat,
    };
    let mut winnings: Vec<u64> = Vec::new();
    while winnings.len() < n
        invariant
            winnings@.len() <= n,
            forall|seat: int| 0 <= seat < winnings@.len() ==> #[trigger] winnings@[seat] == 0,
        decreases n - winnings@.len(),
    {
        winnings.push(0);
    }
    let mut p: usize = 0;
    while p < pots.len()
        invariant
            p <= pots@.len(),
            n == ranks@.len() <= u64::MAX,
            models == pot_models(pots@),
            start == odd_chip.start(),
            chips(models) <= u64::MAX,
            forall|q: int| 0 <= q < pots@.len() ==> awardable((#[trigger] pots@[q])@, ranks@),
            winnings@.len() == n,
            forall|seat: int|
                0 <= seat < n ==> #[trigger] winnings@[seat] == paid_to(models, ranks@, start as int, seat, p as int),
        decreases pots@.len() - p,
    {
        proof {
            assert(awardable(pots@[p as int]@, ranks@));
            lemma_chips_grow(pots@, p + 1, pots@.len() as int);
            assert forall|seat: int| 0 <= seat < n implies #[trigger] winnings@[seat] <= chips_to(
                models,
                p as int,
            ) by {
                lemma_paid_at_most(pots@, ranks@, start as int, seat, p as int);
            }
        }
        let ghost base = winnings@;
        award_pot(&pots[p], ranks, start, &mut winnings, Ghost(chips_to(models, p as int)));
        proof {
            assert forall|seat: int| 0 <= seat < n implies #[trigger] winnings@[seat] == paid_to(
                models,
                ranks@,
                start as int,
                seat,
                p + 1,
            ) by {
                assert(models[p as int] == pots@[p as int]@);
                assert(winnings@[seat] == base[seat] + payment(pots@[p as int]@, ranks@, start as int, seat));
            }
        }
        p = p + 1;
    }
    proof {
        lemma_all_paid(pots@, ranks@, odd_chip, winnings@);
    }
    winnings
}

/// Pays out one pot on top of what the seats have already won.
fn award_pot(pot: &Pot, ranks: &[Option<HandRank>], start: usize, winnings: &mut Vec<u64>, before: Ghost<int>)
    requires
        awardable(pot@, ranks@),
        old(winnings)@.len() == ranks@.len() <= u64::MAX,
        forall|seat: int| 0 <= seat < ranks@.len() ==> #[trigger] old(winnings)@[seat] <= before@,
        before@ + pot.amount <= u64::MAX,
    ensures
        final(winnings)@.len() == ranks@.len(),
        forall|seat: int|
            0 <= seat < ranks@.len() ==> #[trigger] final(winnings)@[seat] == old(winnings)@[seat] + payment(
                pot@,
                ranks@,
                start as int,
                seat,
            ),
{
    let n: usize = ranks.len();
    let list = pot_winners(pot, ranks);
    let ghost sharing = winners(pot@, ranks@);
    proof {
        law_a_pot_is_paid_out_in_full(pot@, ranks@, start as int);
        lemma_seat_set(list@);
        assert(sharing =~= seat_set(list@)) by {
            assert forall|seat: int| seat_set(list@).contains(seat) implies sharing.contains(seat) by {
                let i = choose|i: int| 0 <= i < list@.len() && list@[i] == seat as usize;
                assert(list@[i] < ranks@.len());
            }
        }
        lemma_distinct_below(list@, n as int);
    }
    let share: u64 = pot.amount / (list.len() as u64);
    let remainder: u64 = pot.amount % (list.len() as u64);
    let ghost base = winnings@;
    let mut i: usize = 0;
    while i < list.len()
        invariant
            i <= list@.len(),
            list@.len() <= n == ranks@.len() <= u64::MAX,
            list@.len() > 0,
            list@.no_duplicates(),
            forall|j: int| 0 <= j < list@.len() ==> #[trigger] list@[j] < n,
            sharing == winners(pot@, ranks@),
            sharing == seat_set(list@),
            sharing.len() == list@.len(),
            share == pot.amount as int / (list@.len() as int),
            remainder == pot.amount as int % (list@.len() as int),
            base.len() == n,
            forall|seat: int| 0 <= #[trigger] payment(pot@, ranks@, start as int, seat) <= pot.amount,
            forall|seat: int| 0 <= seat < n ==> #[trigger] base[seat] <= before@,
            before@ + pot.amount <= u64::MAX,
            winnings@.len() == n,
            forall|seat: int|
                0 <= seat < n ==> #[trigger] winnings@[seat] == base[seat] + (if list@.take(i as int).contains(
                    seat as usize,
                ) {
                    payment(pot@, ranks@, start as int, seat)
                } else {
                    0
                }),
        decreases list@.len() - i,
    {
        let seat: usize = list[i];
        let ghost shorter = list@.take(i as int);
        let ghost longer = list@.take(i + 1);
        let line: u64 = count_ahead(&list, seat, start, n);
        proof {
            assert(list@.contains(seat));
            assert(sharing.contains(seat as int));
            assert(longer =~= shorter.push(seat));
            assert(longer[i as int] == seat);
            assert(!shorter.contains(seat)) by {
                if shorter.contains(seat) {
                    let j = choose|j: int| 0 <= j < shorter.len() && shorter[j] == seat;
                    assert(list@[j] == list@[i as int]);
                }
            }
            assert(winnings@[seat as int] == base[seat as int]);
            assert(payment(pot@, ranks@, start as int, seat as int) == share + (if line == 0 {
                remainder as int
            } else {
                0
            }));
        }
        let extra: u64 = if line == 0 {
            remainder
        } else {
            0
        };
        let ghost previous = winnings@;
        winnings.set(seat, winnings[seat] + (share + extra));
        proof {
            assert forall|s: int| 0 <= s < n implies #[trigger] winnings@[s] == base[s] + (if longer.contains(
                s as usize,
            ) {
                payment(pot@, ranks@, start as int, s)
            } else {
                0
            }) by {
                assert(previous[s] == base[s] + (if shorter.contains(s as usize) {
                    payment(pot@, ranks@, start as int, s)
                } else {
                    0
                }));
                if s != seat {
                    if longer.contains(s as usize) {
                        let j = choose|j: int| 0 <= j < longer.len() && longer[j] == s as usize;
                        assert(shorter[j] == s as usize);
                    }
                    if shorter.contains(s as usize) {
                        let j = choose|j: int| 0 <= j < shorter.len() && shorter[j] == s as usize;
                        assert(longer[j] == s as usize);
                    }
                }
            }
        }
        i = i + 1;
    }
    proof {
        assert(list@.take(i as int) =~= list@);
        assert forall|seat: int| 0 <= seat < n implies #[trigger] winnings@[seat] == base[seat] + payment(
            pot@,
            ranks@,
            start as int,
            seat,
        ) by {
            assert(sharing.contains(seat) == list@.contains(seat as usize));
        }
    }
}

/// A list of distinct seats below `n` has at most `n` of them.
proof fn lemma_distinct_below(list: Seq<usize>, n: int)
    requires
        list.no_duplicates(),
        0 <= n,
        forall|i: int| 0 <= i < list.len() ==> #[trigger] list[i] < n,
    ensures
        list.len() <= n,
{
    lemma_seat_set(list);
    let all = vstd::set_lib::set_int_range(0, n);
    vstd::set_lib::lemma_int_range(0, n);
    assert(seat_set(list).subset_of(all)) by {
        assert forall|seat: int| seat_set(list).contains(seat) implies all.contains(seat) by {
            let i = choose|i: int| 0 <= i < list.len() && list[i] == seat as usize;
        }
    }
    vstd::set_lib::lemma_len_subset(seat_set(list), all);
}

/// What the first `k` pots pay the first `m` seats.
spec fn paid_block(pots: Seq<PotModel>, ranks: Seq<Option<HandRank>>, start: int, m: int, k: int) -> int
    decreases k,
{
    if k <= 0 {
        0
    } else {
        paid_block(pots, ranks, start, m, k - 1) + paid_out(pots[k - 1], ranks, start, m)
    }
}

proof fn lemma_paid_block_step(pots: Seq<PotModel>, ranks: Seq<Option<HandRank>>, start: int, m: int, k: int)
    requires
        m > 0,
    ensures
        paid_block(pots, ranks, start, m, k) == paid_block(pots, ranks, start, m - 1, k) + paid_to(
            pots,
            ranks,
            start,
            m - 1,
            k,
        ),
    decreases k,
{
    if k > 0 {
        lemma_paid_block_step(pots, ranks, start, m, k - 1);
    }
}

proof fn lemma_paid_block_zero(pots: Seq<PotModel>, ranks: Seq<Option<HandRank>>, start: int, k: int)
    ensures
        paid_block(pots, ranks, start, 0, k) == 0,
    decreases k,
{
    if k > 0 {
        lemma_paid_block_zero(pots, ranks, start, k - 1);
    }
}

proof fn lemma_paid_block_sum(
    pots: Seq<PotModel>,
    ranks: Seq<Option<HandRank>>,
    start: int,
    winnings: Seq<u64>,
    m: int,
)
    requires
        0 <= m <= winnings.len(),
        forall|seat: int|
            0 <= seat < winnings.len() ==> #[trigger] winnings[seat] == paid_to(
                pots,
                ranks,
                start,
                seat,
                pots.len() as int,
            ),
    ensures
        sum_to(winnings, m) == paid_block(pots, ranks, start, m, pots.len() as int),
    decreases m,
{
    if m > 0 {
        lemma_paid_block_sum(pots, ranks, start, winnings, m - 1);
        lemma_paid_block_step(pots, ranks, start, m, pots.len() as int);
    } else {
        lemma_paid_block_zero(pots, ranks, start, pots.len() as int);
    }
}

proof fn lemma_paid_block_chips(pots: Seq<Pot>, ranks: Seq<Option<HandRank>>, start: int, k: int)
    requires
        0 <= k <= pots.len(),
        0 <= start,
        ranks.len() <= usize::MAX,
        forall|p: int| 0 <= p < pots.len() ==> awardable((#[trigger] pots[p])@, ranks),
    ensures
        paid_block(pot_models(pots), ranks, start, ranks.len() as int, k) == chips_to(pot_models(pots), k),
    decreases k,
{
    if k > 0 {
        lemma_paid_block_chips(pots, ranks, start, k - 1);
        assert(awardable(pots[k - 1]@, ranks));
        law_a_pot_is_paid_out_in_full(pots[k - 1]@, ranks, start);
    }
}

proof fn lemma_all_paid(pots: Seq<Pot>, ranks: Seq<Option<HandRank>>, odd_chip: OddChip, winnings: Seq<u64>)
    requires
        ranks.len() <= usize::MAX,
        forall|p: int| 0 <= p < pots.len() ==> awardable((#[trigger] pots[p])@, ranks),
        winnings.len() == ranks.len(),
        forall|seat: int|
            0 <= seat < ranks.len() ==> #[trigger] winnings[seat] == paid(
                pot_models(pots),
                ranks,
                odd_chip,
                seat,
            ),
    ensures
        sum(winnings) == chips(pot_models(pots)),
{
    let models = pot_models(pots);
    lemma_paid_block_sum(models, ranks, odd_chip.start(), winnings, winnings.len() as int);
    lemma_paid_block_chips(pots, ranks, odd_chip.start(), pots.len() as int);
}

proof fn lemma_paid_within_reach(pots: Seq<PotModel>, ranks: Seq<Option<HandRank>>, start: int, seat: int, k: int)
    requires
        0 <= k <= pots.len(),
        0 <= start,
        0 <= seat < ranks.len() <= usize::MAX,
        forall|p: int| 0 <= p < pots.len() ==> awardable(#[trigger] pots[p], ranks) && pots[p].amount >= 0,
    ensures
        0 <= paid_to(pots, ranks, start, seat, k) <= winnable_to(pots, seat as usize, k),
    decreases k,
{
    if k > 0 {
        lemma_paid_within_reach(pots, ranks, start, seat, k - 1);
        assert(awardable(pots[k - 1], ranks));
        law_a_pot_is_paid_out_in_full(pots[k - 1], ranks, start);
        assert(payment(pots[k - 1], ranks, start, seat) <= pots[k - 1].amount);
    }
}

/// Nobody is paid from a pot they may not win: a seat wins at most what the
/// pots it contends for hold, and so nothing at all where it contends for none.
pub proof fn law_only_contenders_are_paid(
    pots: Seq<PotModel>,
    ranks: Seq<Option<HandRank>>,
    odd_chip: OddChip,
    seat: int,
)
    requires
        0 <= seat < ranks.len() <= usize::MAX,
        forall|p: int| 0 <= p < pots.len() ==> awardable(#[trigger] pots[p], ranks) && pots[p].amount >= 0,
    ensures
        0 <= paid(pots, ranks, odd_chip, seat) <= winnable(pots, seat as usize),
{
    lemma_paid_within_reach(pots, ranks, odd_chip.start(), seat, pots.len() as int);
}

/// A pot goes to nobody who is beaten by another seat that may win it, nor to a
/// seat that may not.
pub proof fn law_the_best_hand_wins_a_pot(
    pot: PotModel,
    ranks: Seq<Option<HandRank>>,
    start: int,
    better: int,
    worse: int,
)
    requires
        0 <= better < ranks.len() <= usize::MAX,
        0 <= worse < ranks.len(),
        pot.eligible.contains(better as usize),
        ranks[better] is Some,
    ensures
        ranks[worse] matches Some(rank) && rank@ < ranks[better]->0@ ==> payment(pot, ranks, start, worse) == 0,
        ranks[worse] is None || !pot.eligible.contains(worse as usize) ==> payment(pot, ranks, start, worse) == 0,
{
}

/// Whoever is beaten by no seat that may win a pot gets an even part of it: as
/// much as any other such seat, but for the remainder, and no less than the pot
/// over the seats that may win it.
pub proof fn law_equal_hands_share_a_pot_evenly(
    pot: PotModel,
    ranks: Seq<Option<HandRank>>,
    start: int,
    one: int,
    other: int,
)
    requires
        awardable(pot, ranks),
        0 <= pot.amount,
        0 <= start,
        0 <= one < ranks.len() <= usize::MAX,
        0 <= other < ranks.len(),
        pot.eligible.contains(one as usize),
        pot.eligible.contains(other as usize),
        ranks[one] is Some,
        ranks[other] is Some,
        ranks[one]->0@ == ranks[other]->0@,
        forall|seat: int|
            0 <= seat < ranks.len() && #[trigger] pot.eligible.contains(seat as usize) && ranks[seat] is Some
                ==> ranks[seat]->0@ <= ranks[one]->0@,
    ensures
        ({
            let (a, b) = (payment(pot, ranks, start, one), payment(pot, ranks, start, other));
            let shared = winners(pot, ranks).len() as int;
            &&& 1 <= shared <= pot.eligible.len()
            &&& pot.amount / shared <= a
            &&& -(pot.amount % shared) <= a - b <= pot.amount % shared
        }),
{
    lemma_winners_exist(pot, ranks);
    let shared = winners(pot, ranks);
    assert(wins(pot, ranks, one));
    assert(wins(pot, ranks, other));
    assert(shared.contains(one) && shared.contains(other));
    let seats = seat_set(pot.eligible);
    lemma_seat_set(pot.eligible);
    assert(shared.subset_of(seats));
    vstd::set_lib::lemma_len_subset(shared, seats);
    vstd::arithmetic::div_mod::lemma_mod_bound(pot.amount, shared.len() as int);
}

/// The remainder goes to the first winner at or after the seat that odd chips
/// are counted from, going up and round: to the lowest winner at or above it,
/// or to the lowest of all where there is none.
pub proof fn law_the_remainder_goes_up_the_table(
    pot: PotModel,
    ranks: Seq<Option<HandRank>>,
    odd_chip: OddChip,
    seat: int,
)
    requires
        awardable(pot, ranks),
        0 <= pot.amount,
        ranks.len() <= usize::MAX,
        wins(pot, ranks, seat),
        odd_chip matches OddChip::ToSeat(from) ==> from < ranks.len(),
        ({
            let from: int = match odd_chip {
                OddChip::ToLowestSeat => 0,
                OddChip::ToSeat(from) => from as int,
            };
            forall|other: int| #[trigger] wins(pot, ranks, other) ==> if seat >= from {
                other < from || other >= seat
            } else {
                other < from && other >= seat
            }
        }),
    ensures
        ({
            let shared = winners(pot, ranks).len() as int;
            payment(pot, ranks, odd_chip.start(), seat) == pot.amount / shared + pot.amount % shared
        }),
{
    let n = ranks.len() as int;
    let start = odd_chip.start();
    let shared = winners(pot, ranks);
    vstd::arithmetic::div_mod::lemma_small_mod(start as nat, n as nat);
    let before = ahead(shared, seat, start, n);
    assert forall|other: int| !before.contains(other) by {
        if before.contains(other) {
            assert(wins(pot, ranks, other));
            lemma_distance(other, start, n);
            lemma_distance(seat, start, n);
        }
    }
    assert(before =~= Set::empty());
}

/// The chips of pots are those of each of them, one more pot's with one more.
pub proof fn law_pots_add_up(pots: Seq<PotModel>, pot: PotModel)
    ensures
        chips(seq![]) == 0,
        chips(pots.push(pot)) == chips(pots) + pot.amount,
{
    lemma_chips_same(pots, pots.push(pot), pots.len() as int);
}

/// Who may win the pot that a chip is in: of those who put in as many chips as
/// that one's height, all who have not folded, and nobody else.
pub proof fn law_contenders_cover_their_chip(contributed: Seq<u64>, folded: Seq<bool>, x: int, seat: int)
    requires
        contributed.len() == folded.len(),
        contributed.len() <= usize::MAX,
        0 <= seat < contributed.len(),
    ensures
        contenders(contributed, folded, x, contributed.len() as int).contains(seat as usize) <==> contributed[seat] >= x
            && !folded[seat],
{
    lemma_contender(contributed, folded, x, contributed.len() as int, seat);
}

proof fn lemma_contender(contributed: Seq<u64>, folded: Seq<bool>, x: int, k: int, seat: int)
    requires
        contributed.len() == folded.len(),
        contributed.len() <= usize::MAX,
        0 <= seat < contributed.len(),
        0 <= k <= contributed.len(),
    ensures
        contenders(contributed, folded, x, k).contains(seat as usize) <==> seat < k && contributed[seat] >= x
            && !folded[seat],
    decreases k,
{
    if k > 0 {
        lemma_contender(contributed, folded, x, k - 1, seat);
        let before = contenders(contributed, folded, x, k - 1);
        let after = contenders(contributed, folded, x, k);
        if after.len() > before.len() {
            assert(after[before.len() as int] == (k - 1) as usize);
            if before.contains(seat as usize) {
                let i = choose|i: int| 0 <= i < before.len() && before[i] == seat as usize;
                assert(after[i] == seat as usize);
            }
            if after.contains(seat as usize) && seat != k - 1 {
                let i = choose|i: int| 0 <= i < after.len() && after[i] == seat as usize;
                assert(before[i] == seat as usize);
            }
        }
    }
}

} // verus!
