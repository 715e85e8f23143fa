//! Facts about single bits of machine words.

use vstd::prelude::*;

verus! {

/// Whether bit `i` of `word` is set.
pub open spec fn bit64(word: u64, i: u64) -> bool {
    (word >> i) & 1 == 1
}

/// Whether bit `i` of `word` is set.
pub open spec fn bit16(word: u16, i: u16) -> bool {
    (word >> i) & 1 == 1
}

/// The words whose bits all lie below bit 52.
pub const ABOVE_DECK: u64 = 0x10_0000_0000_0000;

pub proof fn lemma_set64(word: u64, i: u64, j: u64)
    by (bit_vector)
    requires
        i < 64,
        j < 64,
    ensures
        bit64(word | (1u64 << i), j) == (i == j || bit64(word, j)),
        word < ABOVE_DECK && i < 52 ==> word | (1u64 << i) < ABOVE_DECK,
{
}

pub proof fn lemma_clear64(word: u64, i: u64, j: u64)
    by (bit_vector)
    requires
        i < 64,
        j < 64,
    ensures
        bit64(word & !(1u64 << i), j) == (i != j && bit64(word, j)),
        word & !(1u64 << i) <= word,
{
}

pub proof fn lemma_test64(word: u64, i: u64)
    by (bit_vector)
    requires
        i < 64,
    ensures
        (word & (1u64 << i) != 0) == bit64(word, i),
{
}

pub proof fn lemma_combine64(a: u64, b: u64, j: u64)
    by (bit_vector)
    requires
        j < 64,
    ensures
        bit64(a | b, j) == (bit64(a, j) || bit64(b, j)),
        bit64(a & b, j) == (bit64(a, j) && bit64(b, j)),
        bit64(a & !b, j) == (bit64(a, j) && !bit64(b, j)),
        a < ABOVE_DECK && b < ABOVE_DECK ==> a | b < ABOVE_DECK,
        a & b <= a,
        a & b <= b,
        a & !b <= a,
{
}

pub proof fn lemma_deck64(word: u64, j: u64)
    by (bit_vector)
    requires
        j < 64,
    ensures
        bit64(0, j) == false,
        bit64(0xF_FFFF_FFFF_FFFF, j) == (j < 52),
        word < ABOVE_DECK && j >= 52 ==> !bit64(word, j),
{
}

pub proof fn lemma_set16(word: u16, i: u16, j: u16)
    by (bit_vector)
    requires
        i < 16,
        j < 16,
    ensures
        bit16(word | (1u16 << i), j) == (i == j || bit16(word, j)),
        bit16(word & !(1u16 << i), j) == (i != j && bit16(word, j)),
        bit16(0, j) == false,
{
}

/// A word holds every bit of a run of five exactly when masking with the run
/// leaves the run.
pub proof fn lemma_run16(word: u16, low: u16)
    by (bit_vector)
    requires
        low <= 8,
    ensures
        (word & (0b11111u16 << low) == 0b11111u16 << low) == (bit16(word, low) && bit16(
            word,
            (low + 1) as u16,
        ) && bit16(word, (low + 2) as u16) && bit16(word, (low + 3) as u16) && bit16(
            word,
            (low + 4) as u16,
        )),
{
}

/// The word with the thirteen lowest bits set and no other.
pub proof fn lemma_thirteen16(word: u16)
    requires
        bit16(word, 0) && bit16(word, 1) && bit16(word, 2) && bit16(word, 3),
        bit16(word, 4) && bit16(word, 5) && bit16(word, 6) && bit16(word, 7),
        bit16(word, 8) && bit16(word, 9) && bit16(word, 10) && bit16(word, 11),
        bit16(word, 12) && !bit16(word, 13) && !bit16(word, 14) && !bit16(word, 15),
    ensures
        word == 0x1FFF,
{
    assert(word == 0x1FFF) by (bit_vector)
        requires
            bit16(word, 0) && bit16(word, 1) && bit16(word, 2) && bit16(word, 3),
            bit16(word, 4) && bit16(word, 5) && bit16(word, 6) && bit16(word, 7),
            bit16(word, 8) && bit16(word, 9) && bit16(word, 10) && bit16(word, 11),
            bit16(word, 12) && !bit16(word, 13) && !bit16(word, 14) && !bit16(word, 15),
    ;
}

/// The same for the ace-low run.
pub proof fn lemma_wheel16(word: u16)
    by (bit_vector)
    ensures
        (word & 0x100Fu16 == 0x100Fu16) == (bit16(word, 0) && bit16(word, 1) && bit16(word, 2)
            && bit16(word, 3) && bit16(word, 12)),
{
}

/// A word with no bit set at all is zero.
pub proof fn lemma_zero64(word: u64)
    requires
        forall|i: u64| i < 64 ==> !bit64(word, i),
    ensures
        word == 0,
{
    vstd::std_specs::bits::axiom_u64_trailing_zeros(word);
    if word != 0 {
        let z = vstd::std_specs::bits::u64_trailing_zeros(word) as u64;
        assert(bit64(word, z));
    }
}

/// In a nonzero word below bit 52, the count of trailing zeros is the lowest
/// bit set.
pub proof fn lemma_lowest_present(word: u64)
    requires
        word < ABOVE_DECK,
    ensures
        word != 0 ==> {
            let z = vstd::std_specs::bits::u64_trailing_zeros(word);
            &&& z < 52
            &&& bit64(word, z as u64)
            &&& forall|j: u64| j < z ==> !bit64(word, j)
        },
{
    vstd::std_specs::bits::axiom_u64_trailing_zeros(word);
    if word != 0 {
        lemma_deck64(word, vstd::std_specs::bits::u64_trailing_zeros(word) as u64);
    }
}

} // verus!
