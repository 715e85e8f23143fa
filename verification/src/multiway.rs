//! Splitting a pot between three or more players.
//!
//! Heads-up, equity is a single number. With more players it is not: knowing how
//! often A beats B and how often A beats C does not give A's share of a pot all
//! three contest, because one board settles both matchups at once. So the shares
//! are counted directly, board by board.

use crate::card::Card;
use crate::equity;
use crate::equity::{Equity, EquityError, Variant};
use crate::natural::Natural;
use vstd::prelude::*;

verus! {

/// The hole cards of each player.
pub open spec fn pairs(hands: Seq<[Card; 2]>) -> Seq<Seq<Card>> {
    hands.map_values(|hand: [Card; 2]| hand@)
}

/// The cards left once the hands and the board are dealt. There are some to
/// speak of where two hands or more are given, the board has at most five
/// cards, and no card appears twice.
pub open spec fn table_deck(hands: Seq<[Card; 2]>, board: Seq<Card>) -> Result<Seq<Card>, EquityError> {
    equity::deck_dealt(pairs(hands), board, Variant::Holdem)
}

/// Each player's part in every remaining board: how many boards there are, and
/// in how many the player is best alone or together with others.
///
/// Where no board can be completed from the cards left, every count is zero.
/// [`pot_share`] says what part of the pot a count stands for.
pub fn exact_shares(hands: &[[Card; 2]], board: &[Card]) -> (shares: Vec<Equity>)
    requires
        table_deck(hands@, board@) is Ok,
    ensures
        equity::measured(
            shares@,
            pairs(hands@),
            board@,
            Variant::Holdem,
            equity::every_runout(table_deck(hands@, board@)->Ok_0, 5 - board@.len()),
        ),
{
    let mut list: Vec<&[Card]> = Vec::new();
    let mut i: usize = 0;
    while i < hands.len()
        invariant
            i <= hands@.len(),
            list@.len() == i,
            forall|j: int| 0 <= j < i ==> (#[trigger] list@[j])@ == hands@[j]@,
        decreases hands@.len() - i,
    {
        list.push(hands[i].as_slice());
        i = i + 1;
    }
    assert(equity::holdings(list@) =~= pairs(hands@));
    match equity::deal(list.as_slice(), board, Variant::Holdem) {
        Ok(deck) => equity::count_runouts(list.as_slice(), board, Variant::Holdem, &deck),
        Err(_) => Vec::new(),
    }
}

/// The parts that a pot is cut into: any number of hands that can be dealt from
/// one deck can share them evenly.
pub const POT_PARTS: u64 = 26_771_144_400;

/// The most hands of two cards that can be dealt from one deck.
pub const MOST_HANDS: usize = 26;

/// A part of a pot as a fraction.
#[derive(Debug, Clone, Copy, PartialEq, Eq, Structural)]
pub struct Part {
    pub units: u128,
    pub of: u128,
}

/// The part of the pot that counts stand for, over all the boards: each board's
/// pot is cut evenly between those who are best on it. Where there is no board
/// every player has an equal part.
pub open spec fn part_of(counts: Equity) -> Part {
    let players = counts.shared@.len();
    if counts.trials == 0 {
        Part { units: 1, of: players as u128 }
    } else {
        Part {
            units: equity::parts_taken(counts.shared@, POT_PARTS as int, players as int) as u128,
            of: (POT_PARTS * counts.trials) as u128,
        }
    }
}

proof fn lemma_pot_parts(n: int)
    requires
        n <= MOST_HANDS,
    ensures
        equity::cuts_evenly(POT_PARTS as int, n),
{
    let whole = POT_PARTS as int;
    assert(1 * (whole / 1) == whole && 2 * (whole / 2) == whole && 3 * (whole / 3) == whole && 4 * (whole / 4)
        == whole && 5 * (whole / 5) == whole && 6 * (whole / 6) == whole && 7 * (whole / 7) == whole && 8 * (whole
        / 8) == whole && 9 * (whole / 9) == whole);
    assert(10 * (whole / 10) == whole && 11 * (whole / 11) == whole && 12 * (whole / 12) == whole && 13 * (whole / 13)
        == whole && 14 * (whole / 14) == whole && 15 * (whole / 15) == whole && 16 * (whole / 16) == whole && 17 * (
    whole / 17) == whole && 18 * (whole / 18) == whole);
    assert(19 * (whole / 19) == whole && 20 * (whole / 20) == whole && 21 * (whole / 21) == whole && 22 * (whole / 22)
        == whole && 23 * (whole / 23) == whole && 24 * (whole / 24) == whole && 25 * (whole / 25) == whole && 26 * (
    whole / 26) == whole);
    assert forall|k: int| 1 <= k <= n implies k * #[trigger] (whole / k) == whole by {
        assert(k == 1 || k == 2 || k == 3 || k == 4 || k == 5 || k == 6 || k == 7 || k == 8 || k == 9 || k == 10 || k
            == 11 || k == 12 || k == 13 || k == 14 || k == 15 || k == 16 || k == 17 || k == 18 || k == 19 || k == 20
            || k == 21 || k == 22 || k == 23 || k == 24 || k == 25 || k == 26);
    }
}

proof fn lemma_parts_fit(shared: Seq<u64>, c: int)
    requires
        0 <= c <= shared.len(),
    ensures
        0 <= equity::parts_taken(shared, POT_PARTS as int, c) <= c * (u64::MAX * POT_PARTS),
    decreases c,
{
    if c > 0 {
        lemma_parts_fit(shared, c - 1);
        let (trials, each, whole, most) = (shared[c - 1] as int, POT_PARTS as int / c, POT_PARTS as int, u64::MAX as int);
        assert(0 <= each <= whole) by (nonlinear_arith)
            requires
                each == whole / c,
                c > 0,
                whole == 26_771_144_400,
        ;
        assert(0 <= trials * each <= most * whole) by (nonlinear_arith)
            requires
                0 <= trials <= most,
                0 <= each <= whole,
        ;
        assert(c * (most * whole) == (c - 1) * (most * whole) + most * whole) by (nonlinear_arith);
    }
}

/// The part of the pot that counts stand for: an equal one where no board can be
/// completed.
pub fn pot_share(counts: &Equity) -> (part: Part)
    requires
        1 <= counts.shared@.len() <= MOST_HANDS,
    ensures
        part == part_of(*counts),
{
    let players: usize = counts.shared.len();
    if counts.trials == 0 {
        return Part { units: 1, of: players as u128 };
    }
    let mut units: u128 = 0;
    let mut i: usize = 0;
    while i < players
        invariant
            i <= players == counts.shared@.len() <= MOST_HANDS,
            units == equity::parts_taken(counts.shared@, POT_PARTS as int, i as int),
        decreases players - i,
    {
        proof {
            lemma_parts_fit(counts.shared@, i as int);
            lemma_parts_fit(counts.shared@, i + 1);
        }
        let each: u64 = POT_PARTS / (i as u64 + 1);
        let (a, b): (u128, u128) = (counts.shared[i] as u128, each as u128);
        assert(0 <= a * b <= 0xFFFF_FFFF_FFFF_FFFF * 0xFFFF_FFFF_FFFF_FFFF) by (nonlinear_arith)
            requires
                0 <= a <= 0xFFFF_FFFF_FFFF_FFFF,
                0 <= b <= 0xFFFF_FFFF_FFFF_FFFF,
        ;
        units = units + a * b;
        i = i + 1;
    }
    Part { units, of: POT_PARTS as u128 * counts.trials as u128 }
}

/// The units of the parts of the first `n` players together.
pub open spec fn units_to(shares: Seq<Equity>, n: int) -> int
    decreases n,
{
    if n <= 0 {
        0
    } else {
        units_to(shares, n - 1) + part_of(shares[n - 1]).units
    }
}

/// The parts of all players are of one size and make up the pot, also where no
/// board can be completed.
pub proof fn law_parts_make_up_the_pot(shares: Seq<Equity>, hands: Seq<Seq<Card>>, board: Seq<Card>, deck: Seq<Card>)
    requires
        1 <= hands.len() <= MOST_HANDS,
        board.len() <= 5,
        equity::measured(
            shares,
            hands,
            board,
            Variant::Holdem,
            equity::every_runout(deck, 5 - board.len()),
        ),
    ensures
        forall|i: int| 0 <= i < shares.len() ==> (#[trigger] part_of(shares[i])).of == part_of(shares[0]).of,
        units_to(shares, shares.len() as int) == part_of(shares[0]).of,
{
    let n = hands.len() as int;
    let whole = POT_PARTS as int;
    lemma_pot_parts(n);
    equity::law_exact_shares_sum_to_one(shares, hands, board, Variant::Holdem, deck, 5 - board.len(), whole);
    assert forall|i: int| 0 <= i < n implies (#[trigger] shares[i]).trials == shares[0].trials && shares[i].shared@.len()
        == n by {}
    lemma_units(shares, n, n);
    let trials = shares[0].trials as int;
    assert(0 <= whole * trials <= u128::MAX) by (nonlinear_arith)
        requires
            whole == 26_771_144_400,
            0 <= trials <= u64::MAX,
    ;
    assert forall|i: int| 0 <= i < shares.len() implies (#[trigger] part_of(shares[i])).of == part_of(shares[0]).of by {
        assert(shares[i].trials == shares[0].trials);
    }
}

proof fn lemma_units(shares: Seq<Equity>, players: int, n: int)
    requires
        0 <= n <= shares.len(),
        shares.len() == players,
        1 <= players <= MOST_HANDS,
        forall|i: int|
            0 <= i < players ==> (#[trigger] shares[i]).trials == shares[0].trials && shares[i].shared@.len() == players,
    ensures
        units_to(shares, n) == (if shares[0].trials == 0 {
            n
        } else {
            equity::parts_paid(shares, POT_PARTS as int, n, players)
        }),
    decreases n,
{
    if n > 0 {
        lemma_units(shares, players, n - 1);
        assert(shares[n - 1].trials == shares[0].trials);
        lemma_parts_fit(shares[n - 1].shared@, players);
        assert(players * (u64::MAX * POT_PARTS) <= u128::MAX) by (nonlinear_arith)
            requires
                players <= 26,
        ;
        let taken = equity::parts_taken(shares[n - 1].shared@, POT_PARTS as int, players);
        assert(0 <= taken <= u128::MAX);
        assert(shares[n - 1].trials != 0 ==> part_of(shares[n - 1]).units == taken);
    }
}

/// A share of a pot as a fraction.
#[derive(Debug, Clone, Copy, PartialEq, Eq, Structural)]
pub struct Share {
    pub units: u64,
    pub of: u64,
}

/// The share of a heads-up pot a count stands for: two halves for each board
/// won and one for each board shared. Half the pot where there is no board.
pub open spec fn heads_up_share(won: int, shared: int, trials: int) -> Share {
    if trials == 0 {
        Share { units: 1, of: 2 }
    } else {
        Share { units: (2 * won + shared) as u64, of: (2 * trials) as u64 }
    }
}

/// The share one of two players takes against the other alone.
pub open spec fn duel(hands: Seq<[Card; 2]>, board: Seq<Card>, hero: int, villain: int, side: int) -> Share {
    let two = seq![hands[hero], hands[villain]];
    let deck = table_deck(two, board)->Ok_0;
    let missing = 5 - board.len();
    let counted = equity::every_runout(deck, missing);
    heads_up_share(
        counted(equity::sharing(pairs(two), board, Variant::Holdem, side, 1)),
        counted(equity::sharing(pairs(two), board, Variant::Holdem, side, 2)),
        counted(equity::any_runout()),
    )
}

/// What the pairwise matrix holds at a place: half the pot on the diagonal, and
/// otherwise the share the row's player takes against the column's alone.
pub open spec fn entry(hands: Seq<[Card; 2]>, board: Seq<Card>, row: int, column: int) -> Share {
    if row == column {
        Share { units: 1, of: 2 }
    } else if row < column {
        duel(hands, board, row, column, 0)
    } else {
        duel(hands, board, column, row, 1)
    }
}

fn half() -> (share: Share)
    ensures
        share == (Share { units: 1, of: 2 }),
{
    Share { units: 1, of: 2 }
}

/// The shares of two players against each other alone.
fn duel_shares(hero: [Card; 2], villain: [Card; 2], board: &[Card]) -> (shares: (Share, Share))
    requires
        table_deck(seq![hero, villain], board@) is Ok,
    ensures
        shares.0 == duel(seq![hero, villain], board@, 0, 1, 0),
        shares.1 == duel(seq![hero, villain], board@, 0, 1, 1),
{
    let two: [[Card; 2]; 2] = [hero, villain];
    let ghost players = seq![hero, villain];
    assert(two@ =~= players);
    let counts = exact_shares(&two, board);
    proof {
        let deck = table_deck(players, board@)->Ok_0;
        equity::lemma_counts_fit(pairs(players), board@, Variant::Holdem, deck, 0);
        equity::lemma_counts_fit(pairs(players), board@, Variant::Holdem, deck, 1);
        assert(seq![players[0], players[1]] =~= players);
        assert(counts@[0].shared@[0] == equity::every_runout(deck, 5 - board@.len())(
            equity::sharing(pairs(players), board@, Variant::Holdem, 0, 1),
        ));
        assert(counts@[0].shared@[1] == equity::every_runout(deck, 5 - board@.len())(
            equity::sharing(pairs(players), board@, Variant::Holdem, 0, 2),
        ));
        assert(counts@[1].shared@[0] == equity::every_runout(deck, 5 - board@.len())(
            equity::sharing(pairs(players), board@, Variant::Holdem, 1, 1),
        ));
        assert(counts@[1].shared@[1] == equity::every_runout(deck, 5 - board@.len())(
            equity::sharing(pairs(players), board@, Variant::Holdem, 1, 2),
        ));
    }
    (share_of(&counts[0]), share_of(&counts[1]))
}

fn share_of(counts: &Equity) -> (share: Share)
    requires
        counts.shared@.len() == 2,
        2 * counts.shared@[0] + counts.shared@[1] <= u64::MAX,
        2 * counts.trials <= u64::MAX,
    ensures
        share == heads_up_share(
            counts.shared@[0] as int,
            counts.shared@[1] as int,
            counts.trials as int,
        ),
{
    if counts.trials == 0 {
        half()
    } else {
        Share { units: 2 * counts.shared[0] + counts.shared[1], of: 2 * counts.trials }
    }
}

/// Whether any two of the hands can be dealt with the board.
pub open spec fn all_duels(hands: Seq<[Card; 2]>, board: Seq<Card>) -> bool {
    forall|i: int, j: int|
        0 <= i < j < hands.len() ==> table_deck(seq![#[trigger] hands[i], #[trigger] hands[j]], board) is Ok
}

/// The pairwise equity matrix for a set of hands on a board: entry `[i][j]` is
/// `i`'s share against `j` alone.
pub fn pairwise_matrix(hands: &[[Card; 2]], board: &[Card]) -> (matrix: Vec<Vec<Share>>)
    requires
        all_duels(hands@, board@),
    ensures
        matrix@.len() == hands@.len(),
        forall|i: int| 0 <= i < hands@.len() ==> (#[trigger] matrix@[i])@.len() == hands@.len(),
        forall|i: int, j: int|
            0 <= i < hands@.len() && 0 <= j < hands@.len() ==> #[trigger] matrix@[i]@[j] == entry(
                hands@,
                board@,
                i,
                j,
            ),
{
    let n: usize = hands.len();
    let mut matrix: Vec<Vec<Share>> = Vec::new();
    let mut row: usize = 0;
    while row < n
        invariant
            n == hands@.len(),
            row <= n,
            all_duels(hands@, board@),
            matrix@.len() == row,
            forall|i: int| 0 <= i < row ==> (#[trigger] matrix@[i])@.len() == n,
            forall|i: int, j: int|
                0 <= i < row && 0 <= j < n ==> #[trigger] matrix@[i]@[j] == entry(hands@, board@, i, j),
        decreases n - row,
    {
        let mut line: Vec<Share> = Vec::new();
        let mut column: usize = 0;
        while column < n
            invariant
                n == hands@.len(),
                row < n,
                column <= n,
                all_duels(hands@, board@),
                line@.len() == column,
                forall|j: int| 0 <= j < column ==> #[trigger] line@[j] == entry(hands@, board@, row as int, j),
            decreases n - column,
        {
            let share = if row == column {
                half()
            } else if row < column {
                proof {
                    assert(table_deck(seq![hands@[row as int], hands@[column as int]], board@) is Ok);
                    lemma_duel(hands@, board@, row as int, column as int);
                }
                duel_shares(hands[row], hands[column], board).0
            } else {
                proof {
                    assert(table_deck(seq![hands@[column as int], hands@[row as int]], board@) is Ok);
                    lemma_duel(hands@, board@, column as int, row as int);
                }
                duel_shares(hands[column], hands[row], board).1
            };
            line.push(share);
            column = column + 1;
        }
        matrix.push(line);
        row = row + 1;
    }
    matrix
}

proof fn lemma_duel(hands: Seq<[Card; 2]>, board: Seq<Card>, i: int, j: int)
    requires
        0 <= i < hands.len(),
        0 <= j < hands.len(),
    ensures
        forall|side: int|
            #[trigger] duel(hands, board, i, j, side) == duel(seq![hands[i], hands[j]], board, 0, 1, side),
{
    let two = seq![hands[i], hands[j]];
    assert(seq![two[0], two[1]] =~= two);
}

/// The product of a hand's shares against each of the first `count` others, in
/// units.
pub open spec fn product_against(row: Seq<Share>, hero: int, count: int) -> int
    decreases count,
{
    if count <= 0 {
        1
    } else if count - 1 == hero {
        product_against(row, hero, count - 1)
    } else {
        product_against(row, hero, count - 1) * row[count - 1].units
    }
}

/// The product of the wholes of a hand's shares against each of the first
/// `count` others.
pub open spec fn whole_against(row: Seq<Share>, hero: int, count: int) -> int
    decreases count,
{
    if count <= 0 {
        1
    } else if count - 1 == hero {
        whole_against(row, hero, count - 1)
    } else {
        whole_against(row, hero, count - 1) * row[count - 1].of
    }
}

/// The product of the wholes of the first `count` hands other than one.
pub open spec fn wholes_but(matrix: Seq<Vec<Share>>, hero: int, count: int) -> int
    decreases count,
{
    if count <= 0 {
        1
    } else if count - 1 == hero {
        wholes_but(matrix, hero, count - 1)
    } else {
        wholes_but(matrix, hero, count - 1) * whole_against(
            matrix[count - 1]@,
            count - 1,
            matrix.len() as int,
        )
    }
}

/// The product of a hand's shares against the others, brought to the whole that
/// all hands have in common.
pub open spec fn product_of(matrix: Seq<Vec<Share>>, hero: int) -> int {
    product_against(matrix[hero]@, hero, matrix.len() as int) * wholes_but(matrix, hero, matrix.len() as int)
}

/// Whether every hand has a share against every other.
pub open spec fn is_square(matrix: Seq<Vec<Share>>) -> bool {
    &&& matrix.len() >= 2
    &&& forall|i: int| 0 <= i < matrix.len() ==> (#[trigger] matrix[i])@.len() == matrix.len()
    &&& forall|i: int, j: int|
        0 <= i < matrix.len() && 0 <= j < matrix.len() && i != j ==> (#[trigger] matrix[i]@[j]).of > 0
}

/// Whether no hand has any weight.
pub open spec fn nobody_weighs(matrix: Seq<Vec<Share>>) -> bool {
    forall|i: int| 0 <= i < matrix.len() ==> #[trigger] product_of(matrix, i) == 0
}

/// What a hand weighs among all the hands: the product of its shares, and the
/// same as any other where nobody has any.
pub open spec fn weight(matrix: Seq<Vec<Share>>, hero: int) -> int {
    if nobody_weighs(matrix) {
        1
    } else {
        product_of(matrix, hero)
    }
}

/// Multiplies a number by the wholes of a hand's shares.
fn times_whole(number: Natural, row: &Vec<Share>, hero: usize) -> (product: Natural)
    ensures
        product@ == number@ * whole_against(row@, hero as int, row@.len() as int),
{
    let ghost start = number@;
    let mut product: Natural = number;
    let mut j: usize = 0;
    assert(start * 1 == start);
    while j < row.len()
        invariant
            j <= row@.len(),
            product@ == start * whole_against(row@, hero as int, j as int),
        decreases row@.len() - j,
    {
        if j != hero {
            let ghost so_far = whole_against(row@, hero as int, j as int);
            let of: u64 = row[j].of;
            product = product.times(of);
            assert((start * so_far) * of == start * (so_far * of)) by (nonlinear_arith);
        }
        j = j + 1;
    }
    product
}

/// The product of a hand's shares, brought to the common whole.
fn weigh(matrix: &Vec<Vec<Share>>, hero: usize) -> (product: Natural)
    requires
        is_square(matrix@),
        hero < matrix@.len(),
    ensures
        product@ == product_of(matrix@, hero as int),
{
    let players: usize = matrix.len();
    let ghost row = matrix@[hero as int]@;
    let mut product: Natural = Natural::one();
    let mut villain: usize = 0;
    while villain < players
        invariant
            hero < players,
            villain <= players,
            players == matrix@.len(),
            is_square(matrix@),
            row == matrix@[hero as int]@,
            row.len() == players,
            product@ == product_against(row, hero as int, villain as int),
        decreases players - villain,
    {
        if villain != hero {
            product = product.times(matrix[hero][villain].units);
        }
        villain = villain + 1;
    }
    let ghost won = product@;
    let mut other: usize = 0;
    assert(won * 1 == won);
    while other < players
        invariant
            hero < players,
            other <= players,
            players == matrix@.len(),
            is_square(matrix@),
            product@ == won * wholes_but(matrix@, hero as int, other as int),
        decreases players - other,
    {
        if other != hero {
            let ghost so_far = wholes_but(matrix@, hero as int, other as int);
            let ghost whole = whole_against(matrix@[other as int]@, other as int, players as int);
            product = times_whole(product, &matrix[other], other);
            assert((won * so_far) * whole == won * (so_far * whole)) by (nonlinear_arith);
        }
        other = other + 1;
    }
    product
}

/// Estimates each hand's part of a pot from its shares against each other hand
/// alone: its part is its weight among all the weights.
///
/// It takes beating one opponent to say nothing of beating another. That is
/// false, since one board decides every matchup at once, and the estimate is
/// not fit for solving: it is exact for two hands, and for more it can put
/// them in the wrong order. If nobody has a weight the pot is shared evenly.
pub fn approximate_shares(matrix: &Vec<Vec<Share>>) -> (weights: Vec<Natural>)
    requires
        is_square(matrix@),
    ensures
        weights@.len() == matrix@.len(),
        forall|i: int| 0 <= i < matrix@.len() ==> (#[trigger] weights@[i])@ == weight(matrix@, i),
{
    let players: usize = matrix.len();
    let mut weights: Vec<Natural> = Vec::new();
    let mut any: bool = false;
    let mut hero: usize = 0;
    while hero < players
        invariant
            hero <= players,
            players == matrix@.len(),
            is_square(matrix@),
            weights@.len() == hero,
            forall|i: int| 0 <= i < hero ==> (#[trigger] weights@[i])@ == product_of(matrix@, i),
            any == exists|i: int| 0 <= i < hero && #[trigger] product_of(matrix@, i) != 0,
        decreases players - hero,
    {
        let product: Natural = weigh(matrix, hero);
        any = any || !product.is_zero();
        weights.push(product);
        hero = hero + 1;
    }
    if any {
        return weights;
    }
    let mut even: Vec<Natural> = Vec::new();
    while even.len() < players
        invariant
            even@.len() <= players,
            forall|i: int| 0 <= i < even@.len() ==> (#[trigger] even@[i])@ == 1,
        decreases players - even@.len(),
    {
        even.push(Natural::one());
    }
    even
}

proof fn lemma_whole_against(matrix: Seq<Vec<Share>>, hero: int, count: int)
    requires
        is_square(matrix),
        0 <= hero < matrix.len(),
        0 <= count <= matrix.len(),
    ensures
        whole_against(matrix[hero]@, hero, count) > 0,
    decreases count,
{
    if count > 0 {
        lemma_whole_against(matrix, hero, count - 1);
        if count - 1 != hero {
            let (so_far, of) = (whole_against(matrix[hero]@, hero, count - 1), matrix[hero]@[count - 1].of as int);
            assert(so_far * of > 0) by (nonlinear_arith)
                requires
                    so_far > 0,
                    of > 0,
            ;
        }
    }
}

/// The product of the wholes of the first `count` hands.
pub open spec fn common_whole(matrix: Seq<Vec<Share>>, count: int) -> int
    decreases count,
{
    if count <= 0 {
        1
    } else {
        common_whole(matrix, count - 1) * whole_against(matrix[count - 1]@, count - 1, matrix.len() as int)
    }
}

proof fn lemma_wholes(matrix: Seq<Vec<Share>>, hero: int, count: int)
    requires
        is_square(matrix),
        0 <= hero < matrix.len(),
        0 <= count <= matrix.len(),
    ensures
        common_whole(matrix, count) > 0,
        common_whole(matrix, count) == (if hero < count {
            wholes_but(matrix, hero, count) * whole_against(matrix[hero]@, hero, matrix.len() as int)
        } else {
            wholes_but(matrix, hero, count)
        }),
    decreases count,
{
    if count > 0 {
        lemma_wholes(matrix, hero, count - 1);
        lemma_whole_against(matrix, count - 1, matrix.len() as int);
        let so_far = common_whole(matrix, count - 1);
        let but = wholes_but(matrix, hero, count - 1);
        let whole = whole_against(matrix[count - 1]@, count - 1, matrix.len() as int);
        let own = whole_against(matrix[hero]@, hero, matrix.len() as int);
        assert(so_far * whole > 0) by (nonlinear_arith)
            requires
                so_far > 0,
                whole > 0,
        ;
        assert((but * own) * whole == (but * whole) * own) by (nonlinear_arith);
    }
}

/// A weight is the product of the hand's shares against the others, as a
/// fraction of one whole that all the weights have in common: it is to that
/// whole as the product of the units is to the product of the wholes.
pub proof fn law_weights_are_products_of_shares(matrix: Seq<Vec<Share>>, hero: int)
    requires
        is_square(matrix),
        0 <= hero < matrix.len(),
        !nobody_weighs(matrix),
    ensures
        common_whole(matrix, matrix.len() as int) > 0,
        weight(matrix, hero) * whole_against(matrix[hero]@, hero, matrix.len() as int) == product_against(
            matrix[hero]@,
            hero,
            matrix.len() as int,
        ) * common_whole(matrix, matrix.len() as int),
{
    let n = matrix.len() as int;
    lemma_wholes(matrix, hero, n);
    let units = product_against(matrix[hero]@, hero, n);
    let but = wholes_but(matrix, hero, n);
    let own = whole_against(matrix[hero]@, hero, n);
    assert((units * but) * own == units * (but * own)) by (nonlinear_arith);
}

/// For two hands the estimate is no estimate: where the two shares make up the
/// pot, each one's weight among the two is its share.
pub proof fn law_two_hands_share_exactly(matrix: Seq<Vec<Share>>)
    requires
        is_square(matrix),
        matrix.len() == 2,
        matrix[0]@[1].units * matrix[1]@[0].of + matrix[1]@[0].units * matrix[0]@[1].of == matrix[0]@[1].of
            * matrix[1]@[0].of,
    ensures
        weight(matrix, 0) + weight(matrix, 1) > 0,
        weight(matrix, 0) * matrix[0]@[1].of == matrix[0]@[1].units * (weight(matrix, 0) + weight(matrix, 1)),
        weight(matrix, 1) * matrix[1]@[0].of == matrix[1]@[0].units * (weight(matrix, 0) + weight(matrix, 1)),
{
    reveal_with_fuel(product_against, 3);
    reveal_with_fuel(whole_against, 3);
    reveal_with_fuel(wholes_but, 3);
    let (a, p) = (matrix[0]@[1].units as int, matrix[0]@[1].of as int);
    let (b, q) = (matrix[1]@[0].units as int, matrix[1]@[0].of as int);
    assert(product_of(matrix, 0) == a * q);
    assert(product_of(matrix, 1) == b * p);
    assert(p * q > 0) by (nonlinear_arith)
        requires
            p > 0,
            q > 0,
    ;
    assert(!nobody_weighs(matrix)) by {
        if nobody_weighs(matrix) {
            assert(product_of(matrix, 0) == 0 && product_of(matrix, 1) == 0);
        }
    }
    assert((a * q) * p == a * (p * q) && (b * p) * q == b * (p * q)) by (nonlinear_arith);
}

/// What one hand takes from another is what the other leaves: the two places of
/// the matrix make up the pot.
pub proof fn law_two_places_make_up_the_pot(hands: Seq<[Card; 2]>, board: Seq<Card>, row: int, column: int)
    requires
        0 <= row < hands.len(),
        0 <= column < hands.len(),
        board.len() <= 5,
        all_duels(hands, board),
    ensures
        ({
            let (mine, theirs) = (entry(hands, board, row, column), entry(hands, board, column, row));
            &&& mine.of == theirs.of
            &&& mine.units + theirs.units == mine.of
            &&& mine.of > 0
        }),
{
    if row != column {
        let (low, high) = if row < column {
            (row, column)
        } else {
            (column, row)
        };
        let two = seq![hands[low], hands[high]];
        assert(table_deck(two, board) is Ok);
        let deck = table_deck(two, board)->Ok_0;
        let held = pairs(two);
        let missing = 5 - board.len();
        equity::lemma_two_hands_counted(held, board, Variant::Holdem, deck, missing);
        equity::lemma_counts_fit(held, board, Variant::Holdem, deck, 0);
        equity::lemma_counts_fit(held, board, Variant::Holdem, deck, 1);
    }
}

/// A place of the matrix is the share of its row: on a complete board the whole
/// pot where the row's hand is the stronger, nothing where it is the weaker,
/// and half where they are alike.
pub proof fn law_a_place_is_the_share_of_its_row(hands: Seq<[Card; 2]>, board: Seq<Card>, row: int, column: int)
    requires
        0 <= row < hands.len(),
        0 <= column < hands.len(),
        row != column,
        board.len() == 5,
        all_duels(hands, board),
    ensures
        ({
            let mine = equity::holding_strength(Variant::Holdem, hands[row]@, board);
            let theirs = equity::holding_strength(Variant::Holdem, hands[column]@, board);
            let place = entry(hands, board, row, column);
            &&& place.of == 2
            &&& mine > theirs ==> place.units == 2
            &&& mine == theirs ==> place.units == 1
            &&& mine < theirs ==> place.units == 0
        }),
{
    let (low, high) = if row < column {
        (row, column)
    } else {
        (column, row)
    };
    let two = seq![hands[low], hands[high]];
    let held = pairs(two);
    assert(held.len() == 2);
    assert(held[0] == hands[low]@ && held[1] == hands[high]@);
    let deck = table_deck(two, board)->Ok_0;
    let none: Seq<Card> = seq![];
    assert(board + none =~= board);
    let counted = equity::every_runout(deck, 0);
    equity::lemma_two_hands(held, board, Variant::Holdem);
    let (a, b) = (
        equity::holding_strength(Variant::Holdem, held[0], board),
        equity::holding_strength(Variant::Holdem, held[1], board),
    );
    if a > b {
        equity::law_the_strongest_hands_share_a_board(held, board, Variant::Holdem, 0, 1, 1);
        equity::law_the_strongest_hands_share_a_board(held, board, Variant::Holdem, 0, 1, 2);
    } else if b > a {
        equity::law_the_strongest_hands_share_a_board(held, board, Variant::Holdem, 1, 0, 1);
        equity::law_the_strongest_hands_share_a_board(held, board, Variant::Holdem, 1, 0, 2);
    } else {
        assert(equity::is_winner(held, board, Variant::Holdem, 0));
        assert(equity::is_winner(held, board, Variant::Holdem, 1));
        reveal_with_fuel(equity::winner_count, 3);
    }
    let first = equity::sharing(held, board, Variant::Holdem, 0, 1);
    let second = equity::sharing(held, board, Variant::Holdem, 1, 1);
    let both = equity::sharing(held, board, Variant::Holdem, 0, 2);
    let alike = equity::sharing(held, board, Variant::Holdem, 1, 2);
    assert(first(none) == equity::shares_pot(held, board, Variant::Holdem, 0, 1));
    assert(second(none) == equity::shares_pot(held, board, Variant::Holdem, 1, 1));
    assert(both(none) == equity::shares_pot(held, board, Variant::Holdem, 0, 2));
    assert(alike(none) == equity::shares_pot(held, board, Variant::Holdem, 1, 2));
}

/// What a hand weighs: the product of its shares, unless that is nothing for
/// every hand, and then every hand weighs one.
pub proof fn law_all_weigh_the_same_where_nobody_weighs(matrix: Seq<Vec<Share>>, hero: int, other: int)
    requires
        0 <= hero < matrix.len(),
        0 <= other < matrix.len(),
    ensures
        product_of(matrix, other) != 0 ==> weight(matrix, hero) == product_of(matrix, hero),
        (forall|i: int| 0 <= i < matrix.len() ==> #[trigger] product_of(matrix, i) == 0) ==> weight(matrix, hero) == 1,
{
}

} // verus!
