//! Solved strategies, stored and looked up.
//!
//! A blueprint is the frozen result of a solve: every information set the
//! solver visited, with the strategy it settled on. Keys are sorted and
//! searched by bisection; the probabilities live in one flat list, bounded by
//! offsets, and the layout in memory is the layout of the file.
//!
//! Probabilities and the exploitability are kept as the bit patterns of the
//! floating point numbers that they are.
//!
//! A key that was never solved has no strategy here rather than a made-up one:
//! what to do about it is the caller's decision.
use vstd::prelude::*;
use vstd::utf8::*;

use crate::bytes;
use crate::text;

verus! {

/// Marks a version of the layout.
pub const VERSION: u32 = 1;

/// The bytes that every blueprint begins with.
pub open spec fn magic() -> Seq<u8> {
    seq![0x50u8, 0x4Bu8, 0x42u8, 0x50u8]
}

/// A blueprint in mathematical terms.
#[verifier::ext_equal]
pub struct Stored {
    pub label: Seq<char>,
    pub iterations: u64,
    pub exploitability: Option<u64>,
    pub keys: Seq<u64>,
    pub offsets: Seq<u32>,
    pub probabilities: Seq<u32>,
}

/// Whether keys are in order, each once.
pub open spec fn ascending(keys: Seq<u64>) -> bool {
    forall|i: int, j: int| 0 <= i < j < keys.len() ==> #[trigger] keys[i] < #[trigger] keys[j]
}

/// Whether offsets never go back.
pub open spec fn climbing(offsets: Seq<u32>) -> bool {
    forall|i: int, j: int|
        0 <= i <= j < offsets.len() ==> #[trigger] offsets[i] <= #[trigger] offsets[j]
}

/// The probabilities between an offset and the next.
pub open spec fn part(offsets: Seq<u32>, probabilities: Seq<u32>, index: int) -> Seq<u32> {
    probabilities.subrange(offsets[index] as int, offsets[index + 1] as int)
}

impl Stored {
    /// Whether every lookup is well defined.
    pub open spec fn sound(self) -> bool {
        &&& ascending(self.keys)
        &&& climbing(self.offsets)
        &&& self.offsets.len() == self.keys.len() + 1
        &&& self.offsets.last() == self.probabilities.len()
    }

    /// The strategy of the information set at a place.
    pub open spec fn at(self, index: int) -> Seq<u32> {
        part(self.offsets, self.probabilities, index)
    }

    /// The strategy of every solved information set.
    pub open spec fn strategies(self) -> Map<u64, Seq<u32>> {
        Map::new(|key: u64| self.keys.contains(key), |key: u64| self.at(self.keys.index_of(key)))
    }
}

/// Every key belongs to the strategy at its own place.
pub proof fn lemma_at(stored: Stored, index: int)
    requires
        stored.sound(),
        0 <= index < stored.keys.len(),
    ensures
        stored.strategies().contains_key(stored.keys[index]),
        stored.strategies()[stored.keys[index]] == stored.at(index),
        stored.offsets[index] <= stored.offsets[index + 1] <= stored.probabilities.len(),
{
    let key = stored.keys[index];
    let found = stored.keys.index_of(key);
    assert(stored.keys.contains(key));
    assert(0 <= found < stored.keys.len() && stored.keys[found] == key);
    assert(found == index);
    assert(stored.offsets[index + 1] <= stored.offsets[stored.offsets.len() - 1]);
}

/// A solved strategy, ready for lookup.
#[derive(Debug, PartialEq, Eq)]
pub struct Blueprint {
    label: String,
    iterations: u64,
    exploitability: Option<u64>,
    keys: Vec<u64>,
    offsets: Vec<u32>,
    probabilities: Vec<u32>,
}

impl View for Blueprint {
    type V = Stored;

    closed spec fn view(&self) -> Stored {
        Stored {
            label: self.label@,
            iterations: self.iterations,
            exploitability: self.exploitability,
            keys: self.keys@,
            offsets: self.offsets@,
            probabilities: self.probabilities@,
        }
    }
}

impl Blueprint {
    #[verifier::type_invariant]
    spec fn holds_together(self) -> bool {
        self@.sound()
    }
}

impl Clone for Blueprint {
    fn clone(&self) -> (copy: Blueprint)
        ensures
            copy@ == self@,
    {
        proof {
            use_type_invariant(self);
        }
        let keys: Vec<u64> = self.keys.clone();
        let offsets: Vec<u32> = self.offsets.clone();
        let probabilities: Vec<u32> = self.probabilities.clone();
        assert(keys@ =~= self.keys@);
        assert(offsets@ =~= self.offsets@);
        assert(probabilities@ =~= self.probabilities@);
        Blueprint {
            label: self.label.clone(),
            iterations: self.iterations,
            exploitability: self.exploitability,
            keys,
            offsets,
            probabilities,
        }
    }
}

/// Whether no two entries have a key in common.
pub open spec fn distinct(entries: Seq<(u64, Vec<u32>)>) -> bool {
    forall|i: int, j: int|
        0 <= i < j < entries.len() ==> (#[trigger] entries[i]).0 != (#[trigger] entries[j]).0
}

/// How many probabilities entries hold.
pub open spec fn volume(entries: Seq<(u64, Vec<u32>)>) -> int
    decreases entries.len(),
{
    if entries.len() == 0 {
        0
    } else {
        volume(entries.drop_last()) + entries.last().1@.len()
    }
}

/// A key with the place it came from.
pub open spec fn ordered(pairs: Seq<(u64, usize)>) -> bool {
    forall|i: int, j: int| 0 <= i < j < pairs.len() ==> (#[trigger] pairs[i]).0 < (#[trigger] pairs[j]).0
}

/// Merges two ordered lists that have no key in common.
fn merge(left: &Vec<(u64, usize)>, right: &Vec<(u64, usize)>) -> (merged: Vec<(u64, usize)>)
    requires
        ordered(left@),
        ordered(right@),
        forall|i: int, j: int|
            0 <= i < left@.len() && 0 <= j < right@.len() ==> (#[trigger] left@[i]).0 != (
            #[trigger] right@[j]).0,
    ensures
        ordered(merged@),
        merged@.to_multiset() == left@.to_multiset().add(right@.to_multiset()),
{
    let mut merged: Vec<(u64, usize)> = Vec::new();
    let mut i: usize = 0;
    let mut j: usize = 0;
    proof {
        assert(left@.take(0) =~= Seq::empty());
        assert(right@.take(0) =~= Seq::empty());
        vstd::seq_lib::lemma_multiset_commutative(left@.take(0), right@.take(0));
        assert(left@.take(0) + right@.take(0) =~= merged@);
    }
    while i < left.len() || j < right.len()
        invariant
            i <= left@.len(),
            j <= right@.len(),
            ordered(left@),
            ordered(right@),
            ordered(merged@),
            forall|a: int, b: int|
                0 <= a < left@.len() && 0 <= b < right@.len() ==> (#[trigger] left@[a]).0 != (
                #[trigger] right@[b]).0,
            forall|k: int, a: int|
                0 <= k < merged@.len() && i <= a < left@.len() ==> (#[trigger] merged@[k]).0 < (
                #[trigger] left@[a]).0,
            forall|k: int, b: int|
                0 <= k < merged@.len() && j <= b < right@.len() ==> (#[trigger] merged@[k]).0 < (
                #[trigger] right@[b]).0,
            merged@.to_multiset() == left@.take(i as int).to_multiset().add(
                right@.take(j as int).to_multiset(),
            ),
        decreases left@.len() - i + right@.len() - j,
    {
        let from_left: bool = j >= right.len() || (i < left.len() && left[i].0 < right[j].0);
        let ghost before = merged@;
        if from_left {
            let pair: (u64, usize) = left[i];
            merged.push(pair);
            proof {
                assert(left@.take(i + 1) =~= left@.take(i as int).push(pair));
                broadcast use vstd::seq_lib::group_to_multiset_ensures;

                assert(merged@.to_multiset() =~= left@.take(i + 1).to_multiset().add(
                    right@.take(j as int).to_multiset(),
                ));
            }
            i = i + 1;
        } else {
            let pair: (u64, usize) = right[j];
            merged.push(pair);
            proof {
                assert(right@.take(j + 1) =~= right@.take(j as int).push(pair));
                broadcast use vstd::seq_lib::group_to_multiset_ensures;

                assert(merged@.to_multiset() =~= left@.take(i as int).to_multiset().add(
                    right@.take(j + 1).to_multiset(),
                ));
            }
            j = j + 1;
        }
    }
    assert(left@.take(i as int) =~= left@);
    assert(right@.take(j as int) =~= right@);
    merged
}

/// Whether the keys from `from` up to `to` are all different.
pub open spec fn apart(pairs: Seq<(u64, usize)>) -> bool {
    forall|i: int, j: int|
        0 <= i < j < pairs.len() ==> (#[trigger] pairs[i]).0 != (#[trigger] pairs[j]).0
}

/// Sorts keys that are all different.
fn sorted(pairs: &Vec<(u64, usize)>, from: usize, to: usize) -> (result: Vec<(u64, usize)>)
    requires
        from <= to <= pairs@.len(),
        apart(pairs@),
    ensures
        ordered(result@),
        result@.to_multiset() == pairs@.subrange(from as int, to as int).to_multiset(),
    decreases to - from,
{
    if to - from <= 1 {
        let mut result: Vec<(u64, usize)> = Vec::new();
        if from < to {
            result.push(pairs[from]);
        }
        assert(result@ =~= pairs@.subrange(from as int, to as int));
        result
    } else {
        let middle: usize = from + (to - from) / 2;
        let left: Vec<(u64, usize)> = sorted(pairs, from, middle);
        let right: Vec<(u64, usize)> = sorted(pairs, middle, to);
        let ghost (a, b) = (
            pairs@.subrange(from as int, middle as int),
            pairs@.subrange(middle as int, to as int),
        );
        proof {
            broadcast use vstd::seq_lib::group_to_multiset_ensures;

            assert forall|i: int, j: int|
                0 <= i < left@.len() && 0 <= j < right@.len() implies (#[trigger] left@[i]).0 != (
            #[trigger] right@[j]).0 by {
                assert(left@.to_multiset().contains(left@[i]));
                assert(right@.to_multiset().contains(right@[j]));
                assert(a.contains(left@[i]));
                assert(b.contains(right@[j]));
                let m = choose|m: int| 0 <= m < a.len() && a[m] == left@[i];
                let n = choose|n: int| 0 <= n < b.len() && b[n] == right@[j];
                assert(pairs@[from + m] == left@[i]);
                assert(pairs@[middle + n] == right@[j]);
            }
            vstd::seq_lib::lemma_multiset_commutative(a, b);
            assert(a + b =~= pairs@.subrange(from as int, to as int));
        }
        merge(&left, &right)
    }
}

/// How many probabilities the entries at the places of `pairs` hold.
spec fn weight(entries: Seq<(u64, Vec<u32>)>, pairs: Seq<(u64, usize)>) -> int
    decreases pairs.len(),
{
    if pairs.len() == 0 {
        0
    } else {
        weight(entries, pairs.drop_last()) + entries[pairs.last().1 as int].1@.len()
    }
}

spec fn weigh(entries: Seq<(u64, Vec<u32>)>) -> spec_fn((u64, usize), int) -> int {
    |pair: (u64, usize), sum: int| sum + entries[pair.1 as int].1@.len()
}

proof fn lemma_weight_folds(entries: Seq<(u64, Vec<u32>)>, pairs: Seq<(u64, usize)>, sum: int)
    ensures
        pairs.fold_right(weigh(entries), sum) == sum + weight(entries, pairs),
    decreases pairs.len(),
{
    if pairs.len() > 0 {
        let f = weigh(entries);
        lemma_weight_folds(entries, pairs.drop_last(), f(pairs.last(), sum));
    }
}

proof fn lemma_weight_permutes(
    entries: Seq<(u64, Vec<u32>)>,
    one: Seq<(u64, usize)>,
    other: Seq<(u64, usize)>,
)
    requires
        one.to_multiset() == other.to_multiset(),
    ensures
        weight(entries, one) == weight(entries, other),
{
    lemma_weight_folds(entries, one, 0);
    lemma_weight_folds(entries, other, 0);
    vstd::seq_lib::lemma_fold_right_permutation(one, other, weigh(entries), 0);
}

proof fn lemma_weight_of_prefix(entries: Seq<(u64, Vec<u32>)>, pairs: Seq<(u64, usize)>, count: int)
    requires
        0 <= count <= pairs.len(),
    ensures
        0 <= weight(entries, pairs.take(count)) <= weight(entries, pairs),
    decreases pairs.len(),
{
    if count == pairs.len() {
        assert(pairs.take(count) =~= pairs);
        if count > 0 {
            lemma_weight_of_prefix(entries, pairs.drop_last(), count - 1);
        }
    } else {
        assert(pairs.take(count) =~= pairs.drop_last().take(count));
        lemma_weight_of_prefix(entries, pairs.drop_last(), count);
    }
}

/// The keys of entries, each with its place.
fn places(entries: &Vec<(u64, Vec<u32>)>) -> (pairs: Vec<(u64, usize)>)
    ensures
        pairs@ == Seq::new(entries@.len(), |i: int| (entries@[i].0, i as usize)),
        entries@.len() <= usize::MAX,
        weight(entries@, pairs@) == volume(entries@),
{
    let total: usize = entries.len();
    let mut pairs: Vec<(u64, usize)> = Vec::new();
    let mut i: usize = 0;
    assert(entries@.take(0) =~= Seq::empty());
    while i < entries.len()
        invariant
            i <= entries@.len(),
            pairs@ == Seq::new(i as nat, |k: int| (entries@[k].0, k as usize)),
            weight(entries@, pairs@) == volume(entries@.take(i as int)),
        decreases entries@.len() - i,
    {
        let ghost before = pairs@;
        pairs.push((entries[i].0, i));
        proof {
            assert(pairs@.drop_last() =~= before);
            assert(entries@.take(i + 1).drop_last() =~= entries@.take(i as int));
            assert(pairs@ =~= Seq::new((i + 1) as nat, |k: int| (entries@[k].0, k as usize)));
        }
        i = i + 1;
    }
    assert(entries@.take(i as int) =~= entries@);
    pairs
}

/// Appends the probabilities of an entry.
fn put_words(out: &mut Vec<u32>, words: &Vec<u32>)
    ensures
        final(out)@ == old(out)@ + words@,
{
    let ghost start = out@;
    let mut i: usize = 0;
    while i < words.len()
        invariant
            i <= words@.len(),
            out@ == start + words@.take(i as int),
        decreases words@.len() - i,
    {
        out.push(words[i]);
        assert(words@.take(i + 1) =~= words@.take(i as int).push(words@[i as int]));
        assert(out@ =~= start + words@.take(i + 1));
        i = i + 1;
    }
    assert(words@.take(i as int) =~= words@);
}

/// Whether the first `count` entries in order are laid out.
spec fn laid_out(
    entries: Seq<(u64, Vec<u32>)>,
    order: Seq<(u64, usize)>,
    offsets: Seq<u32>,
    probabilities: Seq<u32>,
    count: int,
) -> bool {
    &&& offsets.len() == count + 1
    &&& offsets[0] == 0
    &&& offsets[count] == probabilities.len()
    &&& climbing(offsets)
    &&& forall|i: int|
        0 <= i < count ==> #[trigger] part(offsets, probabilities, i)
            == entries[order[i].1 as int].1@
}

proof fn lemma_laid_out(
    entries: Seq<(u64, Vec<u32>)>,
    order: Seq<(u64, usize)>,
    offsets: Seq<u32>,
    probabilities: Seq<u32>,
    count: int,
    words: Seq<u32>,
)
    requires
        0 <= count < order.len(),
        laid_out(entries, order, offsets, probabilities, count),
        words == entries[order[count].1 as int].1@,
        probabilities.len() + words.len() <= u32::MAX,
    ensures
        laid_out(
            entries,
            order,
            offsets.push((probabilities.len() + words.len()) as u32),
            probabilities + words,
            count + 1,
        ),
{
    let (longer, all) = (
        offsets.push((probabilities.len() + words.len()) as u32),
        probabilities + words,
    );
    assert forall|i: int, j: int| 0 <= i <= j < longer.len() implies #[trigger] longer[i]
        <= #[trigger] longer[j] by {
        if j <= count {
            assert(offsets[i] <= offsets[j]);
        } else if i <= count {
            assert(offsets[i] <= offsets[count]);
        }
    }
    assert forall|i: int| 0 <= i < count + 1 implies #[trigger] part(longer, all, i)
        == entries[order[i].1 as int].1@ by {
        if i < count {
            assert(offsets[i] <= offsets[i + 1]);
            assert(offsets[i + 1] <= offsets[count]);
            assert(part(longer, all, i) =~= part(offsets, probabilities, i));
        } else {
            assert(part(longer, all, i) =~= words);
        }
    }
}

/// Whether a blueprint stores exactly what entries say.
pub open spec fn holds_entries(stored: Stored, entries: Seq<(u64, Vec<u32>)>) -> bool {
    &&& forall|i: int|
        0 <= i < entries.len() ==> stored.strategies().contains_key((#[trigger] entries[i]).0)
            && stored.strategies()[entries[i].0] == entries[i].1@
    &&& forall|key: u64| #[trigger]
        stored.strategies().contains_key(key) ==> exists|i: int|
            0 <= i < entries.len() && (#[trigger] entries[i]).0 == key
    &&& stored.offsets[0] == 0
}

impl Blueprint {
    /// Freezes the strategies that a solve came to, in any order, together with
    /// how long it was trained and how exploitable the result is, where that
    /// was measured.
    pub fn from_solver(
        entries: &Vec<(u64, Vec<u32>)>,
        label: String,
        iterations: u64,
        exploitability: Option<u64>,
    ) -> (blueprint: Blueprint)
        requires
            distinct(entries@),
            volume(entries@) <= u32::MAX,
        ensures
            blueprint@.sound(),
            blueprint@.label == label@,
            blueprint@.iterations == iterations,
            blueprint@.exploitability == exploitability,
            holds_entries(blueprint@, entries@),
    {
        let pairs: Vec<(u64, usize)> = places(entries);
        let order: Vec<(u64, usize)> = sorted(&pairs, 0, pairs.len());
        proof {
            assert(pairs@.subrange(0, pairs@.len() as int) =~= pairs@);
            lemma_weight_permutes(entries@, order@, pairs@);
            lemma_members(order@, pairs@);
            assert forall|i: int| 0 <= i < order@.len() implies (#[trigger] order@[i]).1
                < entries@.len() && order@[i].0 == entries@[order@[i].1 as int].0 by {
                assert(pairs@.contains(order@[i]));
                let at = choose|at: int| 0 <= at < pairs@.len() && pairs@[at] == order@[i];
                assert(pairs@[at].1 == at);
            }
        }
        let mut keys: Vec<u64> = Vec::new();
        let mut offsets: Vec<u32> = Vec::new();
        let mut probabilities: Vec<u32> = Vec::new();
        offsets.push(0);
        let mut k: usize = 0;
        let total: usize = entries.len();
        assert(order@.take(0) =~= Seq::empty());
        while k < order.len()
            invariant
                k <= order@.len(),
                total == entries@.len(),
                keys@.len() == k,
                forall|i: int|
                    0 <= i < order@.len() ==> (#[trigger] order@[i]).1 < total && order@[i].0
                        == entries@[order@[i].1 as int].0,
                weight(entries@, order@) == volume(entries@),
                volume(entries@) <= u32::MAX,
                probabilities@.len() == weight(entries@, order@.take(k as int)),
                forall|i: int| 0 <= i < k ==> #[trigger] keys@[i] == order@[i].0,
                laid_out(entries@, order@, offsets@, probabilities@, k as int),
            decreases order@.len() - k,
        {
            let (key, place): (u64, usize) = order[k];
            proof {
                assert(order@.take(k + 1).drop_last() =~= order@.take(k as int));
                lemma_weight_of_prefix(entries@, order@, k + 1);
                lemma_laid_out(
                    entries@,
                    order@,
                    offsets@,
                    probabilities@,
                    k as int,
                    entries@[place as int].1@,
                );
            }
            keys.push(key);
            put_words(&mut probabilities, &entries[place].1);
            offsets.push(probabilities.len() as u32);
            k = k + 1;
        }
        let ghost stored = Stored {
            label: label@,
            iterations,
            exploitability,
            keys: keys@,
            offsets: offsets@,
            probabilities: probabilities@,
        };
        proof {
            assert(order@.take(k as int) =~= order@);
            assert(ascending(keys@)) by {
                assert forall|i: int, j: int| 0 <= i < j < keys@.len() implies #[trigger] keys@[i]
                    < #[trigger] keys@[j] by {
                    assert(order@[i].0 < order@[j].0);
                }
            }
            assert(stored.sound());
            assert forall|i: int| 0 <= i < entries@.len() implies stored.strategies().contains_key(
                (#[trigger] entries@[i]).0,
            ) && stored.strategies()[entries@[i].0] == entries@[i].1@ by {
                assert(pairs@[i] == (entries@[i].0, i as usize));
                assert(pairs@.contains(pairs@[i]));
                assert(order@.contains(pairs@[i]));
                let at = choose|at: int| 0 <= at < order@.len() && order@[at] == pairs@[i];
                assert(keys@[at] == entries@[i].0);
                lemma_at(stored, at);
                assert(offsets@[at] >= 0);
                assert(stored.at(at) == entries@[order@[at].1 as int].1@);
            }
            assert forall|key: u64| #[trigger] stored.strategies().contains_key(key) implies exists|
                i: int,
            |
                0 <= i < entries@.len() && (#[trigger] entries@[i]).0 == key by {
                let at = choose|at: int| 0 <= at < keys@.len() && keys@[at] == key;
                assert(keys@[at] == order@[at].0);
                assert(pairs@.contains(order@[at]));
                let i = choose|i: int| 0 <= i < pairs@.len() && pairs@[i] == order@[at];
                assert(entries@[i].0 == key);
            }
        }
        Blueprint { label, iterations, exploitability, keys, offsets, probabilities }
    }

    /// Freezes strategies, in any order, without a record of a solve.
    pub fn from_profile(entries: &Vec<(u64, Vec<u32>)>, label: String) -> (blueprint: Blueprint)
        requires
            distinct(entries@),
            volume(entries@) <= u32::MAX,
        ensures
            blueprint@.sound(),
            blueprint@.label == label@,
            blueprint@.iterations == 0,
            blueprint@.exploitability is None,
            holds_entries(blueprint@, entries@),
    {
        Blueprint::from_solver(entries, label, 0, None)
    }
}

/// Lists that are permutations of one another have the same members.
proof fn lemma_members(one: Seq<(u64, usize)>, other: Seq<(u64, usize)>)
    requires
        one.to_multiset() == other.to_multiset(),
    ensures
        forall|i: int| 0 <= i < one.len() ==> other.contains(#[trigger] one[i]),
        forall|i: int| 0 <= i < other.len() ==> one.contains(#[trigger] other[i]),
{
    broadcast use vstd::seq_lib::group_to_multiset_ensures;

    assert forall|i: int| 0 <= i < one.len() implies other.contains(#[trigger] one[i]) by {
        assert(one.contains(one[i]));
        assert(one.to_multiset().contains(one[i]));
    }
    assert forall|i: int| 0 <= i < other.len() implies one.contains(#[trigger] other[i]) by {
        assert(other.contains(other[i]));
        assert(other.to_multiset().contains(other[i]));
    }
}

/// Keys as bytes.
pub open spec fn packed_keys(keys: Seq<u64>) -> Seq<u8>
    decreases keys.len(),
{
    if keys.len() == 0 {
        Seq::empty()
    } else {
        packed_keys(keys.drop_last()) + bytes::little(keys.last() as int, 8)
    }
}

/// Words as bytes.
pub open spec fn packed_words(words: Seq<u32>) -> Seq<u8>
    decreases words.len(),
{
    if words.len() == 0 {
        Seq::empty()
    } else {
        packed_words(words.drop_last()) + bytes::little(words.last() as int, 4)
    }
}

/// What goes before the keys: the mark, the version, the label, the record of
/// the solve and how many keys follow.
pub open spec fn packed_head(stored: Stored) -> Seq<u8> {
    let name = encode_utf8(stored.label);
    magic() + bytes::little(VERSION as int, 4) + bytes::little(name.len() as int, 4) + name
        + bytes::little(stored.iterations as int, 8) + seq![
        match stored.exploitability {
            Some(_) => 1u8,
            None => 0u8,
        },
    ] + bytes::little(
        match stored.exploitability {
            Some(measured) => measured as int,
            None => 0,
        },
        8,
    ) + bytes::little(stored.keys.len() as int, 8)
}

/// A blueprint as bytes.
pub open spec fn packed(stored: Stored) -> Seq<u8> {
    packed_head(stored) + packed_keys(stored.keys) + packed_words(stored.offsets) + packed_words(
        stored.probabilities,
    )
}

impl Blueprint {
    /// What this blueprint solves.
    pub fn label(&self) -> (label: &str)
        ensures
            label@ == self@.label,
    {
        self.label.as_str()
    }

    /// Iterations behind the solve, none if not recorded.
    pub fn iterations(&self) -> (iterations: u64)
        ensures
            iterations == self@.iterations,
    {
        self.iterations
    }

    /// How exploitable the stored strategy is, if it was measured.
    pub fn exploitability(&self) -> (exploitability: Option<u64>)
        ensures
            exploitability == self@.exploitability,
    {
        self.exploitability
    }

    /// Number of information sets stored.
    pub fn len(&self) -> (len: usize)
        ensures
            len == self@.keys.len(),
            self@.sound(),
    {
        proof {
            use_type_invariant(self);
        }
        self.keys.len()
    }

    /// Whether nothing is stored.
    pub fn is_empty(&self) -> (empty: bool)
        ensures
            empty == (self@.keys.len() == 0),
    {
        self.keys.len() == 0
    }

    /// Where a key is, if it is there.
    fn find(&self, key: u64) -> (index: Option<usize>)
        ensures
            match index {
                Some(index) => index < self@.keys.len() && self@.keys[index as int] == key,
                None => !self@.keys.contains(key),
            },
    {
        proof {
            use_type_invariant(self);
        }
        let mut low: usize = 0;
        let mut high: usize = self.keys.len();
        while low < high
            invariant
                low <= high <= self.keys@.len(),
                ascending(self.keys@),
                self@.keys == self.keys@,
                forall|i: int| 0 <= i < low ==> #[trigger] self.keys@[i] < key,
                forall|i: int| high <= i < self.keys@.len() ==> #[trigger] self.keys@[i] > key,
            decreases high - low,
        {
            let middle: usize = low + (high - low) / 2;
            if self.keys[middle] == key {
                return Some(middle);
            }
            if self.keys[middle] < key {
                low = middle + 1;
            } else {
                high = middle;
            }
        }
        None
    }

    /// The strategy at `key`, or `None` if it was never solved.
    pub fn strategy(&self, key: u64) -> (strategy: Option<&[u32]>)
        ensures
            match strategy {
                Some(found) => self@.strategies().contains_key(key) && found@
                    == self@.strategies()[key],
                None => !self@.strategies().contains_key(key),
            },
    {
        proof {
            use_type_invariant(self);
        }
        let count: usize = self.keys.len();
        match self.find(key) {
            Some(index) => {
                assert(index < count);
                proof {
                    lemma_at(self@, index as int);
                }
                let start: usize = self.offsets[index] as usize;
                let end: usize = self.offsets[index + 1] as usize;
                Some(vstd::slice::slice_subrange(self.probabilities.as_slice(), start, end))
            },
            None => None,
        }
    }

    /// The most likely action at `key`, the last of several. Probabilities are
    /// compared as the numbers that their bit patterns stand for. A pattern
    /// that stands for no number is taken to be as likely as what it is compared
    /// with.
    pub fn best_action(&self, key: u64) -> (action: Option<usize>)
        ensures
            match action {
                Some(action) => {
                    &&& self@.strategies().contains_key(key)
                    &&& self@.strategies()[key].len() > 0
                    &&& action == most_likely(self@.strategies()[key], self@.strategies()[key].len() as int)
                },
                None => !self@.strategies().contains_key(key) || self@.strategies()[key].len() == 0,
            },
    {
        match self.strategy(key) {
            Some(strategy) => {
                if strategy.len() == 0 {
                    return None;
                }
                let mut best: usize = 0;
                let mut i: usize = 1;
                while i < strategy.len()
                    invariant
                        0 < i <= strategy@.len(),
                        best < i,
                        best == most_likely(strategy@, i as int),
                    decreases strategy@.len() - i,
                {
                    if !is_larger(strategy[best], strategy[i]) {
                        best = i;
                    }
                    i = i + 1;
                }
                Some(best)
            },
            None => None,
        }
    }

    /// Every stored information set, in the order of the keys.
    pub fn entries(&self) -> (entries: Vec<(u64, Vec<u32>)>)
        ensures
            entries@.len() == self@.keys.len(),
            forall|i: int|
                0 <= i < entries@.len() ==> (#[trigger] entries@[i]).0 == self@.keys[i]
                    && entries@[i].1@ == self@.at(i),
            self@.sound(),
    {
        proof {
            use_type_invariant(self);
        }
        let mut entries: Vec<(u64, Vec<u32>)> = Vec::new();
        let mut i: usize = 0;
        while i < self.keys.len()
            invariant
                i <= self.keys@.len(),
                self@.keys == self.keys@,
                self@.offsets == self.offsets@,
                self@.probabilities == self.probabilities@,
                self@.sound(),
                entries@.len() == i,
                forall|k: int|
                    0 <= k < i ==> (#[trigger] entries@[k]).0 == self@.keys[k] && entries@[k].1@
                        == self@.at(k),
            decreases self.keys@.len() - i,
        {
            proof {
                lemma_at(self@, i as int);
            }
            let start: usize = self.offsets[i] as usize;
            let end: usize = self.offsets[i + 1] as usize;
            let part: &[u32] = vstd::slice::slice_subrange(
                self.probabilities.as_slice(),
                start,
                end,
            );
            entries.push((self.keys[i], vstd::slice::slice_to_vec(part)));
            i = i + 1;
        }
        entries
    }
}

/// Whether a bit pattern stands for no number.
pub open spec fn no_number(bits: u32) -> bool {
    bits % 0x8000_0000 > 0x7F80_0000
}

/// The order of the number that a bit pattern stands for: by its size where the
/// sign bit is clear, and the other way round where it is set. The two zeros
/// are alike.
pub open spec fn rank_of(bits: u32) -> int {
    if bits < 0x8000_0000 {
        bits as int
    } else {
        0x8000_0000 - bits
    }
}

/// Whether one bit pattern stands for a larger number than another.
pub open spec fn larger(one: u32, other: u32) -> bool {
    !no_number(one) && !no_number(other) && rank_of(one) > rank_of(other)
}

fn is_larger(one: u32, other: u32) -> (is: bool)
    ensures
        is == larger(one, other),
{
    if one % 0x8000_0000 > 0x7F80_0000 || other % 0x8000_0000 > 0x7F80_0000 {
        return false;
    }
    if one < 0x8000_0000 {
        if other < 0x8000_0000 {
            one > other
        } else {
            one > 0 || other > 0x8000_0000
        }
    } else {
        other > 0x8000_0000 && one < other
    }
}

/// The most likely of the first `n` entries: going through them in order, each
/// takes the place of the one before unless that one is larger.
pub open spec fn most_likely(strategy: Seq<u32>, n: int) -> int
    decreases n,
{
    if n <= 1 {
        0
    } else {
        let best = most_likely(strategy, n - 1);
        if larger(strategy[best], strategy[n - 1]) {
            best
        } else {
            n - 1
        }
    }
}

/// Where every probability is a number, the most likely action has the largest,
/// and every later action has a smaller one.
pub proof fn law_the_most_likely_action_is_the_last_largest(strategy: Seq<u32>, n: int)
    requires
        0 < n <= strategy.len(),
        forall|i: int| 0 <= i < n ==> !no_number(#[trigger] strategy[i]),
    ensures
        0 <= most_likely(strategy, n) < n,
        forall|i: int|
            0 <= i < n ==> rank_of(#[trigger] strategy[i]) <= rank_of(strategy[most_likely(strategy, n)]),
        forall|i: int|
            most_likely(strategy, n) < i < n ==> rank_of(#[trigger] strategy[i]) < rank_of(
                strategy[most_likely(strategy, n)],
            ),
    decreases n,
{
    if n > 1 {
        law_the_most_likely_action_is_the_last_largest(strategy, n - 1);
    }
}

/// Appends keys.
fn put_keys(out: &mut Vec<u8>, keys: &Vec<u64>)
    ensures
        final(out)@ == old(out)@ + packed_keys(keys@),
{
    let ghost start = out@;
    let mut i: usize = 0;
    assert(keys@.take(0) =~= Seq::empty());
    assert(out@ =~= start + packed_keys(keys@.take(0)));
    while i < keys.len()
        invariant
            i <= keys@.len(),
            out@ == start + packed_keys(keys@.take(i as int)),
        decreases keys@.len() - i,
    {
        bytes::put_little(out, keys[i], 8);
        assert(keys@.take(i + 1).drop_last() =~= keys@.take(i as int));
        assert(out@ =~= start + packed_keys(keys@.take(i + 1)));
        i = i + 1;
    }
    assert(keys@.take(i as int) =~= keys@);
}

/// Appends words.
fn put_packed(out: &mut Vec<u8>, words: &Vec<u32>)
    ensures
        final(out)@ == old(out)@ + packed_words(words@),
{
    let ghost start = out@;
    let mut i: usize = 0;
    assert(words@.take(0) =~= Seq::empty());
    assert(out@ =~= start + packed_words(words@.take(0)));
    while i < words.len()
        invariant
            i <= words@.len(),
            out@ == start + packed_words(words@.take(i as int)),
        decreases words@.len() - i,
    {
        bytes::put_little(out, words[i] as u64, 4);
        assert(words@.take(i + 1).drop_last() =~= words@.take(i as int));
        assert(out@ =~= start + packed_words(words@.take(i + 1)));
        i = i + 1;
    }
    assert(words@.take(i as int) =~= words@);
}

proof fn lemma_packed_keys_len(keys: Seq<u64>)
    ensures
        packed_keys(keys).len() == 8 * keys.len(),
    decreases keys.len(),
{
    if keys.len() > 0 {
        lemma_packed_keys_len(keys.drop_last());
        bytes::lemma_little_len(keys.last() as int, 8);
    }
}

proof fn lemma_packed_words_len(words: Seq<u32>)
    ensures
        packed_words(words).len() == 4 * words.len(),
    decreases words.len(),
{
    if words.len() > 0 {
        lemma_packed_words_len(words.drop_last());
        bytes::lemma_little_len(words.last() as int, 4);
    }
}

proof fn lemma_packed_head_len(stored: Stored)
    ensures
        packed_head(stored).len() == 37 + encode_utf8(stored.label).len(),
{
    bytes::lemma_little_len(VERSION as int, 4);
    bytes::lemma_little_len(encode_utf8(stored.label).len() as int, 4);
    bytes::lemma_little_len(stored.iterations as int, 8);
    bytes::lemma_little_len(
        match stored.exploitability {
            Some(measured) => measured as int,
            None => 0,
        },
        8,
    );
    bytes::lemma_little_len(stored.keys.len() as int, 8);
}

impl Blueprint {
    /// The blueprint as the bytes of a file.
    pub fn to_bytes(&self) -> (file: Vec<u8>)
        ensures
            file@ == packed(self@),
    {
        let mut file: Vec<u8> = Vec::new();
        let mark: [u8; 4] = [0x50, 0x4B, 0x42, 0x50];
        assert(mark@ =~= magic());
        bytes::put_all(&mut file, &mark);
        bytes::put_little(&mut file, VERSION as u64, 4);
        let name: &[u8] = self.label.as_str().as_bytes();
        bytes::put_little(&mut file, name.len() as u64, 4);
        bytes::put_all(&mut file, name);
        bytes::put_little(&mut file, self.iterations, 8);
        match self.exploitability {
            Some(measured) => {
                file.push(1);
                bytes::put_little(&mut file, measured, 8);
            },
            None => {
                file.push(0);
                bytes::put_little(&mut file, 0, 8);
            },
        }
        bytes::put_little(&mut file, self.keys.len() as u64, 8);
        assert(file@ =~= packed_head(self@));
        put_keys(&mut file, &self.keys);
        put_packed(&mut file, &self.offsets);
        put_packed(&mut file, &self.probabilities);
        file
    }

    /// Bytes that the blueprint takes once written.
    pub fn size_on_disk(&self) -> (size: usize)
        requires
            packed(self@).len() <= usize::MAX,
        ensures
            size == packed(self@).len(),
    {
        proof {
            lemma_packed_head_len(self@);
            lemma_packed_keys_len(self.keys@);
            lemma_packed_words_len(self.offsets@);
            lemma_packed_words_len(self.probabilities@);
        }
        let name: usize = self.label.as_str().as_bytes().len();
        37 + name + self.keys.len() * 8 + self.offsets.len() * 4 + self.probabilities.len() * 4
    }
}

/// Why bytes are no blueprint.
#[derive(Debug, Clone, Copy, PartialEq, Eq, Structural)]
pub enum BlueprintError {
    /// The bytes end too early.
    Truncated,
    /// They do not begin as a blueprint does.
    Magic,
    /// They are laid out as another version is.
    Version(u32),
    /// The label is not text.
    Label,
    /// The keys are out of order, so that a lookup would find the wrong one.
    Keys,
    /// The offsets go back.
    Offsets,
}

impl BlueprintError {
    /// The words for the error.
    pub open spec fn words(self) -> Seq<char> {
        match self {
            BlueprintError::Truncated => "failed to fill whole buffer"@,
            BlueprintError::Magic => "not a blueprint file"@,
            BlueprintError::Version(found) => "blueprint version "@ + text::digits(found as int)
                + ", expected 1"@,
            BlueprintError::Label => "blueprint label is not valid UTF-8"@,
            BlueprintError::Keys => "blueprint keys are not strictly ascending"@,
            BlueprintError::Offsets => "blueprint offsets are not ascending"@,
        }
    }

    /// The error in words.
    pub fn to_string(&self) -> (words: String)
        ensures
            words@ == self.words(),
    {
        match self {
            BlueprintError::Truncated => String::from_str("failed to fill whole buffer"),
            BlueprintError::Magic => String::from_str("not a blueprint file"),
            BlueprintError::Version(found) => {
                let mut words: String = String::from_str("blueprint version ");
                let number: String = text::decimal(*found as u64);
                words.append(number.as_str());
                words.append(", expected 1");
                words
            },
            BlueprintError::Label => String::from_str("blueprint label is not valid UTF-8"),
            BlueprintError::Keys => String::from_str("blueprint keys are not strictly ascending"),
            BlueprintError::Offsets => String::from_str("blueprint offsets are not ascending"),
        }
    }
}

/// The number in the `width` bytes from `at` on.
pub open spec fn word(file: Seq<u8>, at: int, width: int) -> int {
    bytes::read_little(file.subrange(at, at + width))
}

/// The keys from `at` on.
pub open spec fn keys_at(file: Seq<u8>, at: int, count: int) -> Seq<u64> {
    Seq::new(count as nat, |i: int| word(file, at + 8 * i, 8) as u64)
}

/// The words from `at` on.
pub open spec fn words_at(file: Seq<u8>, at: int, count: int) -> Seq<u32> {
    Seq::new(count as nat, |i: int| word(file, at + 4 * i, 4) as u32)
}

/// What the keys, offsets and probabilities from `at` on make of a blueprint.
pub open spec fn read_body(file: Seq<u8>, at: int, head: Stored, count: int) -> Result<
    Stored,
    BlueprintError,
> {
    let second = at + 8 * count;
    let third = second + 4 * (count + 1);
    if file.len() < second {
        Err(BlueprintError::Truncated)
    } else {
        let keys = keys_at(file, at, count);
        if !ascending(keys) {
            Err(BlueprintError::Keys)
        } else if file.len() < third {
            Err(BlueprintError::Truncated)
        } else {
            let offsets = words_at(file, second, count + 1);
            if !climbing(offsets) {
                Err(BlueprintError::Offsets)
            } else if file.len() < third + 4 * offsets.last() {
                Err(BlueprintError::Truncated)
            } else {
                Ok(
                    Stored {
                        keys,
                        offsets,
                        probabilities: words_at(file, third, offsets.last() as int),
                        ..head
                    },
                )
            }
        }
    }
}

/// What bytes are as a blueprint, or the first thing that is wrong with them.
pub open spec fn read(file: Seq<u8>) -> Result<Stored, BlueprintError> {
    if file.len() < 4 {
        Err(BlueprintError::Truncated)
    } else if file.subrange(0, 4) != magic() {
        Err(BlueprintError::Magic)
    } else if file.len() < 8 {
        Err(BlueprintError::Truncated)
    } else if word(file, 4, 4) != VERSION {
        Err(BlueprintError::Version(word(file, 4, 4) as u32))
    } else if file.len() < 12 || file.len() < 12 + word(file, 8, 4) {
        Err(BlueprintError::Truncated)
    } else {
        let at = 12 + word(file, 8, 4);
        let name = file.subrange(12, at);
        if !valid_utf8(name) {
            Err(BlueprintError::Label)
        } else if file.len() < at + 25 {
            Err(BlueprintError::Truncated)
        } else {
            let head = Stored {
                label: decode_utf8(name),
                iterations: word(file, at, 8) as u64,
                exploitability: if file[at + 8] == 1 {
                    Some(word(file, at + 9, 8) as u64)
                } else {
                    None
                },
                keys: Seq::empty(),
                offsets: Seq::empty(),
                probabilities: Seq::empty(),
            };
            read_body(file, at + 25, head, word(file, at + 17, 8))
        }
    }
}

/// Calls `String::from_utf8`: bytes that are valid UTF-8 come back as the text
/// they encode, and no others do.
#[verifier::external_body]
fn text_of(name: Vec<u8>) -> (label: Option<String>)
    ensures
        label is Some <==> valid_utf8(name@),
        label is Some ==> label->Some_0@ == decode_utf8(name@),
{
    String::from_utf8(name).ok()
}

/// Reads keys.
fn get_keys(file: &[u8], at: usize, count: usize) -> (keys: Vec<u64>)
    requires
        at + 8 * count <= file@.len(),
    ensures
        keys@ == keys_at(file@, at as int, count as int),
{
    let size: usize = file.len();
    let mut keys: Vec<u64> = Vec::new();
    let mut i: usize = 0;
    while i < count
        invariant
            i <= count,
            size == file@.len(),
            at + 8 * count <= size,
            keys@ == keys_at(file@, at as int, i as int),
        decreases count - i,
    {
        let key: u64 = bytes::get_little(file, at + 8 * i, 8);
        keys.push(key);
        assert(keys@ =~= keys_at(file@, at as int, i + 1));
        i = i + 1;
    }
    keys
}

/// Reads words.
fn get_words(file: &[u8], at: usize, count: usize) -> (words: Vec<u32>)
    requires
        at + 4 * count <= file@.len(),
    ensures
        words@ == words_at(file@, at as int, count as int),
{
    let size: usize = file.len();
    let mut words: Vec<u32> = Vec::new();
    let mut i: usize = 0;
    while i < count
        invariant
            i <= count,
            size == file@.len(),
            at + 4 * count <= size,
            words@ == words_at(file@, at as int, i as int),
        decreases count - i,
    {
        proof {
            bytes::lemma_limits();
        }
        let word: u64 = bytes::get_little(file, at + 4 * i, 4);
        words.push(word as u32);
        assert(words@ =~= words_at(file@, at as int, i + 1));
        i = i + 1;
    }
    words
}

/// Whether keys are in order, each once.
fn is_ascending(keys: &Vec<u64>) -> (sorted: bool)
    ensures
        sorted == ascending(keys@),
{
    let mut i: usize = 1;
    while i < keys.len()
        invariant
            1 <= i,
            forall|a: int, b: int|
                0 <= a < b < i && b < keys@.len() ==> #[trigger] keys@[a] < #[trigger] keys@[b],
        decreases keys@.len() - i,
    {
        if keys[i - 1] >= keys[i] {
            assert(!(keys@[i - 1] < keys@[i as int]));
            return false;
        }
        assert forall|a: int, b: int| 0 <= a < b < i + 1 && b < keys@.len() implies #[trigger] keys@[a]
            < #[trigger] keys@[b] by {
            if b == i && a < i - 1 {
                assert(keys@[a] < keys@[i - 1]);
            }
        }
        i = i + 1;
    }
    true
}

/// Whether offsets never go back.
fn is_climbing(offsets: &Vec<u32>) -> (sorted: bool)
    ensures
        sorted == climbing(offsets@),
{
    let mut i: usize = 1;
    while i < offsets.len()
        invariant
            1 <= i,
            forall|a: int, b: int|
                0 <= a <= b < i && b < offsets@.len() ==> #[trigger] offsets@[a] <= #[trigger] offsets@[b],
        decreases offsets@.len() - i,
    {
        if offsets[i - 1] > offsets[i] {
            assert(!(offsets@[i - 1] <= offsets@[i as int]));
            return false;
        }
        assert forall|a: int, b: int| 0 <= a <= b < i + 1 && b < offsets@.len() implies #[trigger] offsets@[a]
            <= #[trigger] offsets@[b] by {
            if b == i && a < i - 1 {
                assert(offsets@[a] <= offsets@[i - 1]);
            }
        }
        i = i + 1;
    }
    true
}

/// Whether a reading comes to what the bytes are.
pub open spec fn reads_as(
    found: Result<Blueprint, BlueprintError>,
    expected: Result<Stored, BlueprintError>,
) -> bool {
    match found {
        Ok(blueprint) => expected == Ok::<Stored, BlueprintError>(blueprint@),
        Err(error) => expected == Err::<Stored, BlueprintError>(error),
    }
}

impl Blueprint {
    /// Reads the keys, offsets and probabilities that begin at `at`.
    fn read_rest(
        file: &[u8],
        at: usize,
        count: u64,
        label: String,
        iterations: u64,
        exploitability: Option<u64>,
    ) -> (found: Result<Blueprint, BlueprintError>)
        requires
            at <= file@.len(),
        ensures
            reads_as(
                found,
                read_body(
                    file@,
                    at as int,
                    (Stored {
                        label: label@,
                        iterations,
                        exploitability,
                        keys: Seq::empty(),
                        offsets: Seq::empty(),
                        probabilities: Seq::empty(),
                    }),
                    count as int,
                ),
            ),
    {
        let size: usize = file.len();
        if ((size - at) as u128) < 8 * count as u128 {
            return Err(BlueprintError::Truncated);
        }
        let count: usize = count as usize;
        let keys: Vec<u64> = get_keys(file, at, count);
        if !is_ascending(&keys) {
            return Err(BlueprintError::Keys);
        }
        let second: usize = at + 8 * count;
        if ((size - second) as u128) < 4 * (count as u128 + 1) {
            return Err(BlueprintError::Truncated);
        }
        let offsets: Vec<u32> = get_words(file, second, count + 1);
        if !is_climbing(&offsets) {
            return Err(BlueprintError::Offsets);
        }
        let third: usize = second + 4 * (count + 1);
        let total: u32 = offsets[count];
        if ((size - third) as u128) < 4 * total as u128 {
            return Err(BlueprintError::Truncated);
        }
        let probabilities: Vec<u32> = get_words(file, third, total as usize);
        let ghost stored = Stored {
            label: label@,
            iterations,
            exploitability,
            keys: keys@,
            offsets: offsets@,
            probabilities: probabilities@,
        };
        assert(stored.sound());
        Ok(Blueprint { label, iterations, exploitability, keys, offsets, probabilities })
    }

    /// Reads bytes that [`Blueprint::to_bytes`] made.
    pub fn from_bytes(file: &[u8]) -> (found: Result<Blueprint, BlueprintError>)
        ensures
            reads_as(found, read(file@)),
    {
        proof {
            bytes::lemma_limits();
        }
        let size: usize = file.len();
        if size < 4 {
            return Err(BlueprintError::Truncated);
        }
        if file[0] != 0x50 || file[1] != 0x4B || file[2] != 0x42 || file[3] != 0x50 {
            assert(file@.subrange(0, 4)[0] != magic()[0] || file@.subrange(0, 4)[1] != magic()[1]
                || file@.subrange(0, 4)[2] != magic()[2] || file@.subrange(0, 4)[3] != magic()[3]);
            return Err(BlueprintError::Magic);
        }
        assert(file@.subrange(0, 4) =~= magic());
        if size < 8 {
            return Err(BlueprintError::Truncated);
        }
        let version: u64 = bytes::get_little(file, 4, 4);
        if version != VERSION as u64 {
            return Err(BlueprintError::Version(version as u32));
        }
        if size < 12 {
            return Err(BlueprintError::Truncated);
        }
        let length: u64 = bytes::get_little(file, 8, 4);
        if ((size - 12) as u64) < length {
            return Err(BlueprintError::Truncated);
        }
        let at: usize = 12 + length as usize;
        let mut name: Vec<u8> = Vec::new();
        bytes::put_range(&mut name, file, 12, at);
        assert(name@ =~= file@.subrange(12, at as int));
        let label: String = match text_of(name) {
            Some(label) => label,
            None => {
                return Err(BlueprintError::Label);
            },
        };
        if size - at < 25 {
            return Err(BlueprintError::Truncated);
        }
        let iterations: u64 = bytes::get_little(file, at, 8);
        let measured: u64 = bytes::get_little(file, at + 9, 8);
        let exploitability: Option<u64> = if file[at + 8] == 1 {
            Some(measured)
        } else {
            None
        };
        let count: u64 = bytes::get_little(file, at + 17, 8);
        Blueprint::read_rest(file, at + 25, count, label, iterations, exploitability)
    }
}

proof fn lemma_keys_read_back(file: Seq<u8>, at: int, keys: Seq<u64>)
    requires
        0 <= at,
        at + packed_keys(keys).len() <= file.len(),
        file.subrange(at, at + packed_keys(keys).len()) == packed_keys(keys),
    ensures
        keys_at(file, at, keys.len() as int) == keys,
    decreases keys.len(),
{
    lemma_packed_keys_len(keys);
    if keys.len() > 0 {
        let (before, last) = (keys.drop_last(), keys.last());
        let part = file.subrange(at, at + packed_keys(keys).len());
        lemma_packed_keys_len(before);
        bytes::lemma_little_len(last as int, 8);
        bytes::lemma_limits();
        bytes::lemma_little_reads_back(last as int, 8);
        let end = at + 8 * before.len();
        assert(file.subrange(at, end) =~= part.take(8 * before.len() as int));
        assert(packed_keys(keys).take(8 * before.len() as int) =~= packed_keys(before));
        lemma_keys_read_back(file, at, before);
        assert(file.subrange(end, end + 8) =~= part.skip(8 * before.len() as int));
        assert(packed_keys(keys).skip(8 * before.len() as int) =~= bytes::little(last as int, 8));
        assert forall|i: int| 0 <= i < keys.len() implies keys_at(file, at, keys.len() as int)[i]
            == keys[i] by {
            if i < before.len() {
                assert(keys_at(file, at, before.len() as int)[i] == before[i]);
            }
        }
    }
    assert(keys_at(file, at, keys.len() as int) =~= keys);
}

proof fn lemma_words_read_back(file: Seq<u8>, at: int, words: Seq<u32>)
    requires
        0 <= at,
        at + packed_words(words).len() <= file.len(),
        file.subrange(at, at + packed_words(words).len()) == packed_words(words),
    ensures
        words_at(file, at, words.len() as int) == words,
    decreases words.len(),
{
    lemma_packed_words_len(words);
    if words.len() > 0 {
        let (before, last) = (words.drop_last(), words.last());
        let part = file.subrange(at, at + packed_words(words).len());
        lemma_packed_words_len(before);
        bytes::lemma_little_len(last as int, 4);
        bytes::lemma_limits();
        bytes::lemma_little_reads_back(last as int, 4);
        let end = at + 4 * before.len();
        assert(file.subrange(at, end) =~= part.take(4 * before.len() as int));
        assert(packed_words(words).take(4 * before.len() as int) =~= packed_words(before));
        lemma_words_read_back(file, at, before);
        assert(file.subrange(end, end + 4) =~= part.skip(4 * before.len() as int));
        assert(packed_words(words).skip(4 * before.len() as int) =~= bytes::little(last as int, 4));
        assert forall|i: int| 0 <= i < words.len() implies words_at(file, at, words.len() as int)[i]
            == words[i] by {
            if i < before.len() {
                assert(words_at(file, at, before.len() as int)[i] == before[i]);
            }
        }
    }
    assert(words_at(file, at, words.len() as int) =~= words);
}

proof fn lemma_head_reads_back(file: Seq<u8>, stored: Stored)
    requires
        encode_utf8(stored.label).len() <= u32::MAX,
        stored.keys.len() <= u64::MAX,
        packed_head(stored).len() <= file.len(),
        file.take(packed_head(stored).len() as int) == packed_head(stored),
    ensures
        ({
            let head = Stored {
                keys: Seq::empty(),
                offsets: Seq::empty(),
                probabilities: Seq::empty(),
                ..stored
            };
            read(file) == read_body(
                file,
                packed_head(stored).len() as int,
                head,
                stored.keys.len() as int,
            )
        }),
{
    let whole = packed_head(stored);
    let part = file.take(whole.len() as int);
    let name = encode_utf8(stored.label);
    let measured = match stored.exploitability {
        Some(measured) => measured as int,
        None => 0,
    };
    lemma_packed_head_len(stored);
    bytes::lemma_limits();
    bytes::lemma_little_len(VERSION as int, 4);
    bytes::lemma_little_len(name.len() as int, 4);
    bytes::lemma_little_len(stored.iterations as int, 8);
    bytes::lemma_little_len(measured, 8);
    bytes::lemma_little_len(stored.keys.len() as int, 8);
    bytes::lemma_little_reads_back(VERSION as int, 4);
    bytes::lemma_little_reads_back(name.len() as int, 4);
    bytes::lemma_little_reads_back(stored.iterations as int, 8);
    bytes::lemma_little_reads_back(measured, 8);
    bytes::lemma_little_reads_back(stored.keys.len() as int, 8);
    let at = 12 + name.len() as int;
    assert(file.subrange(0, 4) =~= part.subrange(0, 4));
    assert(whole.subrange(0, 4) =~= magic());
    assert(file.subrange(4, 8) =~= part.subrange(4, 8));
    assert(whole.subrange(4, 8) =~= bytes::little(VERSION as int, 4));
    assert(file.subrange(8, 12) =~= part.subrange(8, 12));
    assert(whole.subrange(8, 12) =~= bytes::little(name.len() as int, 4));
    assert(file.subrange(12, at) =~= part.subrange(12, at));
    assert(whole.subrange(12, at) =~= name);
    assert(file.subrange(at, at + 8) =~= part.subrange(at, at + 8));
    assert(whole.subrange(at, at + 8) =~= bytes::little(stored.iterations as int, 8));
    assert(file[at + 8] == part[at + 8]);
    assert(file.subrange(at + 9, at + 17) =~= part.subrange(at + 9, at + 17));
    assert(whole.subrange(at + 9, at + 17) =~= bytes::little(measured, 8));
    assert(file.subrange(at + 17, at + 25) =~= part.subrange(at + 17, at + 25));
    assert(whole.subrange(at + 17, at + 25) =~= bytes::little(stored.keys.len() as int, 8));
    encode_utf8_valid_utf8(stored.label);
    encode_utf8_decode_utf8(stored.label);
}

/// What was written reads back: label, record, keys, and every strategy, for
/// every label and every number of keys whose lengths can be written down.
pub proof fn law_a_written_blueprint_reads_back(stored: Stored)
    requires
        stored.sound(),
        encode_utf8(stored.label).len() <= u32::MAX,
        stored.keys.len() <= u64::MAX,
    ensures
        read(packed(stored)) == Ok::<Stored, BlueprintError>(stored),
{
    let file = packed(stored);
    let first = packed_head(stored).len() as int;
    let second = first + 8 * stored.keys.len();
    let third = second + 4 * stored.offsets.len();
    lemma_packed_keys_len(stored.keys);
    lemma_packed_words_len(stored.offsets);
    lemma_packed_words_len(stored.probabilities);
    assert(file.take(first) =~= packed_head(stored));
    lemma_head_reads_back(file, stored);
    assert(file.subrange(first, second) =~= packed_keys(stored.keys));
    lemma_keys_read_back(file, first, stored.keys);
    assert(file.subrange(second, third) =~= packed_words(stored.offsets));
    lemma_words_read_back(file, second, stored.offsets);
    assert(file.subrange(third, third + 4 * stored.probabilities.len()) =~= packed_words(
        stored.probabilities,
    ));
    lemma_words_read_back(file, third, stored.probabilities);
}

/// Whatever reads at all can be looked up in.
pub proof fn law_what_reads_is_sound(file: Seq<u8>)
    ensures
        read(file) matches Ok(stored) ==> stored.sound(),
{
    let at = 12 + word(file, 8, 4);
    bytes::lemma_read_little_bound(file.subrange(at + 17, at + 25));
}

/// Two blueprints with the same strategies, recorded alike and laid out from
/// the start, are the same blueprint: the order that the strategies arrive in
/// leaves no trace.
pub proof fn law_strategies_settle_the_layout(one: Stored, other: Stored)
    requires
        one.sound(),
        other.sound(),
        one.strategies() == other.strategies(),
        one.offsets[0] == other.offsets[0],
        one.offsets[0] == 0,
    ensures
        one.keys == other.keys,
        one.offsets == other.offsets,
        one.probabilities == other.probabilities,
{
    assert forall|key: u64| one.keys.contains(key) <==> other.keys.contains(key) by {
        assert(one.strategies().contains_key(key) == one.keys.contains(key));
        assert(other.strategies().contains_key(key) == other.keys.contains(key));
    }
    lemma_same_keys(one.keys, other.keys);
    lemma_same_layout(one, other, one.keys.len() as int);
    assert(one.offsets =~= other.offsets);
    assert forall|i: int| 0 <= i < one.probabilities.len() implies one.probabilities[i]
        == other.probabilities[i] by {
        lemma_same_probability(one, other, i, one.keys.len() as int);
    }
    assert(one.probabilities =~= other.probabilities);
}

proof fn lemma_same_keys(one: Seq<u64>, other: Seq<u64>)
    requires
        ascending(one),
        ascending(other),
        forall|key: u64| one.contains(key) <==> other.contains(key),
    ensures
        one == other,
    decreases one.len(),
{
    if one.len() == 0 {
        if other.len() > 0 {
            assert(other.contains(other[0]));
        }
        assert(one =~= other);
    } else {
        assert(one.contains(one.last()));
        assert(other.len() > 0);
        assert(other.contains(other.last()));
        let i = choose|i: int| 0 <= i < other.len() && other[i] == one.last();
        let j = choose|j: int| 0 <= j < one.len() && one[j] == other.last();
        assert(one.last() == other.last());
        let (a, b) = (one.drop_last(), other.drop_last());
        assert forall|key: u64| a.contains(key) <==> b.contains(key) by {
            if a.contains(key) {
                let k = choose|k: int| 0 <= k < a.len() && a[k] == key;
                assert(one[k] == key && key < one.last());
                assert(one.contains(key));
                let m = choose|m: int| 0 <= m < other.len() && other[m] == key;
                assert(b[m] == key);
            }
            if b.contains(key) {
                let k = choose|k: int| 0 <= k < b.len() && b[k] == key;
                assert(other[k] == key && key < other.last());
                assert(other.contains(key));
                let m = choose|m: int| 0 <= m < one.len() && one[m] == key;
                assert(a[m] == key);
            }
        }
        lemma_same_keys(a, b);
        assert(one =~= a.push(one.last()));
        assert(other =~= b.push(other.last()));
    }
}

proof fn lemma_same_layout(one: Stored, other: Stored, count: int)
    requires
        one.sound(),
        other.sound(),
        one.strategies() == other.strategies(),
        one.offsets[0] == other.offsets[0],
        one.keys == other.keys,
        0 <= count <= one.keys.len(),
    ensures
        forall|i: int| 0 <= i <= count ==> #[trigger] one.offsets[i] == other.offsets[i],
    decreases count,
{
    if count > 0 {
        lemma_same_layout(one, other, count - 1);
        lemma_at(one, count - 1);
        lemma_at(other, count - 1);
        assert(one.at(count - 1).len() == other.at(count - 1).len());
    }
}

proof fn lemma_same_probability(one: Stored, other: Stored, at: int, count: int)
    requires
        one.sound(),
        other.sound(),
        one.strategies() == other.strategies(),
        one.keys == other.keys,
        one.offsets == other.offsets,
        one.offsets[0] == 0,
        0 <= count <= one.keys.len(),
        0 <= at < one.offsets[count],
    ensures
        one.probabilities[at] == other.probabilities[at],
    decreases count,
{
    lemma_at(one, count - 1);
    lemma_at(other, count - 1);
    if at < one.offsets[count - 1] {
        lemma_same_probability(one, other, at, count - 1);
    } else {
        let k = at - one.offsets[count - 1];
        assert(one.at(count - 1)[k] == one.probabilities[at]);
        assert(other.at(count - 1)[k] == other.probabilities[at]);
    }
}

/// How a blueprint is laid out: four letters, the version, the label with its
/// length before it, the record of the solve and the number of keys, and then
/// the keys, eight bytes each, the offsets and the probabilities, four each.
pub proof fn law_a_blueprint_is_laid_out_in_order(stored: Stored)
    ensures
        ({
            let (file, name) = (packed(stored), encode_utf8(stored.label));
            let body = 12 + name.len() + 25;
            &&& file.len() == body + 8 * stored.keys.len() + 4 * stored.offsets.len() + 4 * stored.probabilities.len()
            &&& file[0] == 0x50 && file[1] == 0x4B && file[2] == 0x42 && file[3] == 0x50
            &&& file.subrange(4, 8) =~= seq![1u8, 0u8, 0u8, 0u8]
            &&& file.subrange(12, 12int + name.len()) =~= name
            &&& file[12int + name.len() + 8] == (if stored.exploitability is Some {
                1u8
            } else {
                0u8
            })
        }),
{
    let name = encode_utf8(stored.label);
    lemma_packed_lengths(stored.keys, stored.offsets);
    lemma_packed_lengths(stored.keys, stored.probabilities);
    bytes::lemma_little_len(VERSION as int, 4);
    bytes::lemma_little_len(name.len() as int, 4);
    bytes::lemma_little_len(stored.iterations as int, 8);
    bytes::lemma_little_len(
        match stored.exploitability {
            Some(measured) => measured as int,
            None => 0,
        },
        8,
    );
    bytes::lemma_little_len(stored.keys.len() as int, 8);
    reveal_with_fuel(bytes::little, 5);
    let file = packed(stored);
    assert(bytes::little(1, 4) =~= seq![1u8, 0u8, 0u8, 0u8]);
}

proof fn lemma_packed_lengths(keys: Seq<u64>, words: Seq<u32>)
    ensures
        packed_keys(keys).len() == 8 * keys.len(),
        packed_words(words).len() == 4 * words.len(),
    decreases keys.len() + words.len(),
{
    if keys.len() > 0 {
        lemma_packed_lengths(keys.drop_last(), seq![]);
        bytes::lemma_little_len(keys.last() as int, 8);
    }
    if words.len() > 0 {
        lemma_packed_lengths(seq![], words.drop_last());
        bytes::lemma_little_len(words.last() as int, 4);
    }
}

/// What is read begins with the four letters and the version, and has keys in
/// order.
pub proof fn law_only_blueprints_are_read(file: Seq<u8>)
    requires
        read(file) is Ok,
    ensures
        file.len() >= 37,
        file[0] == 0x50 && file[1] == 0x4B && file[2] == 0x42 && file[3] == 0x50,
        bytes::read_little(file.subrange(4, 8)) == 1,
        forall|i: int, j: int|
            0 <= i < j < (read(file)->Ok_0).keys.len() ==> #[trigger] (read(file)->Ok_0).keys[i]
                < #[trigger] (read(file)->Ok_0).keys[j],
{
    law_what_reads_is_sound(file);
    assert(file.subrange(0, 4)[0] == magic()[0]);
    assert(file.subrange(0, 4)[1] == magic()[1]);
    assert(file.subrange(0, 4)[2] == magic()[2]);
    assert(file.subrange(0, 4)[3] == magic()[3]);
    bytes::lemma_read_little_bound(file.subrange(8, 12));
}

/// The strategy of a key is the run of probabilities from its offset up to the
/// next.
pub proof fn law_a_strategy_lies_between_its_offsets(stored: Stored, at: int, move_at: int)
    requires
        stored.sound(),
        0 <= at < stored.keys.len(),
        0 <= move_at < stored.offsets[at + 1] - stored.offsets[at],
    ensures
        stored.strategies().contains_key(stored.keys[at]),
        stored.strategies()[stored.keys[at]].len() == stored.offsets[at + 1] - stored.offsets[at],
        stored.strategies()[stored.keys[at]][move_at] == stored.probabilities[stored.offsets[at] + move_at],
{
    let key = stored.keys[at];
    assert(stored.keys.contains(key));
    let found = stored.keys.index_of(key);
    assert(stored.keys[found] == key);
    assert(found == at) by {
        if found < at {
            assert(stored.keys[found] < stored.keys[at]);
        } else if found > at {
            assert(stored.keys[at] < stored.keys[found]);
        }
    }
    assert(stored.offsets[at + 1] <= stored.offsets[stored.keys.len() as int]);
}

/// How bit patterns compare as the numbers they stand for: without a sign bit
/// the larger pattern is the larger number, with one the smaller is, and any
/// number without is larger than one with, unless both are nought.
pub proof fn law_patterns_compare_as_numbers(one: u32, other: u32)
    requires
        one % 0x8000_0000 <= 0x7F80_0000,
        other % 0x8000_0000 <= 0x7F80_0000,
    ensures
        one < 0x8000_0000 && other < 0x8000_0000 ==> larger(one, other) == (one > other),
        one >= 0x8000_0000 && other >= 0x8000_0000 ==> larger(one, other) == (one < other),
        one < 0x8000_0000 && other >= 0x8000_0000 ==> larger(one, other) == (one > 0 || other > 0x8000_0000),
        one >= 0x8000_0000 && other < 0x8000_0000 ==> !larger(one, other),
{
}

/// What a frozen solve answers: for every key of the solve the probabilities that
/// came with it, and nothing for any other key.
pub proof fn law_a_solve_is_frozen_as_it_is(stored: Stored, entries: Seq<(u64, Vec<u32>)>, i: int, key: u64)
    requires
        holds_entries(stored, entries),
        0 <= i < entries.len(),
        forall|k: int| 0 <= k < entries.len() ==> (#[trigger] entries[k]).0 != key,
    ensures
        stored.strategies().contains_key(entries[i].0),
        stored.strategies()[entries[i].0] == entries[i].1@,
        !stored.strategies().contains_key(key),
        stored.offsets[0] == 0,
{
}

} // verus!
