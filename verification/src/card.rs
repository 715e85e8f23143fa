//! Card, rank, suit, and card-set primitives.
//!
//! A [`Card`] is a rank and a suit. Its index in `0..52` is `rank * 4 + suit`,
//! so cards sort by rank first. Ranks run from `Two` (index 0) to `Ace` (index
//! 12); suits are ordered clubs, diamonds, hearts, spades.

use crate::bits;
use crate::text;
use vstd::prelude::*;

verus! {

pub const NUM_RANKS: usize = 13;

pub const NUM_SUITS: usize = 4;

pub const NUM_CARDS: usize = 52;

/// A card rank, `Two` through `Ace`.
#[derive(Debug, Clone, Copy, PartialEq, Eq, PartialOrd, Ord, Hash, Structural)]
pub enum Rank {
    Two,
    Three,
    Four,
    Five,
    Six,
    Seven,
    Eight,
    Nine,
    Ten,
    Jack,
    Queen,
    King,
    Ace,
}

/// A card suit.
#[derive(Debug, Clone, Copy, PartialEq, Eq, PartialOrd, Ord, Hash, Structural)]
pub enum Suit {
    Clubs,
    Diamonds,
    Hearts,
    Spades,
}

/// The rank with the given index; `Ace` for anything out of range.
pub open spec fn rank_at(index: int) -> Rank {
    if index == 0 {
        Rank::Two
    } else if index == 1 {
        Rank::Three
    } else if index == 2 {
        Rank::Four
    } else if index == 3 {
        Rank::Five
    } else if index == 4 {
        Rank::Six
    } else if index == 5 {
        Rank::Seven
    } else if index == 6 {
        Rank::Eight
    } else if index == 7 {
        Rank::Nine
    } else if index == 8 {
        Rank::Ten
    } else if index == 9 {
        Rank::Jack
    } else if index == 10 {
        Rank::Queen
    } else if index == 11 {
        Rank::King
    } else {
        Rank::Ace
    }
}

/// The suit with the given index; `Spades` for anything out of range.
pub open spec fn suit_at(index: int) -> Suit {
    if index == 0 {
        Suit::Clubs
    } else if index == 1 {
        Suit::Diamonds
    } else if index == 2 {
        Suit::Hearts
    } else {
        Suit::Spades
    }
}

/// The characters that name the ranks, lowest rank first.
pub open spec fn rank_chars() -> Seq<char> {
    seq!['2', '3', '4', '5', '6', '7', '8', '9', 'T', 'J', 'Q', 'K', 'A']
}

/// The characters that name the suits, in suit order.
pub open spec fn suit_chars() -> Seq<char> {
    seq!['c', 'd', 'h', 's']
}

impl Rank {
    pub const ALL: [Rank; 13] = [
        Rank::Two,
        Rank::Three,
        Rank::Four,
        Rank::Five,
        Rank::Six,
        Rank::Seven,
        Rank::Eight,
        Rank::Nine,
        Rank::Ten,
        Rank::Jack,
        Rank::Queen,
        Rank::King,
        Rank::Ace,
    ];

    /// The position of this rank in the order, from 0 for `Two` to 12 for `Ace`.
    pub open spec fn order(self) -> int {
        match self {
            Rank::Two => 0,
            Rank::Three => 1,
            Rank::Four => 2,
            Rank::Five => 3,
            Rank::Six => 4,
            Rank::Seven => 5,
            Rank::Eight => 6,
            Rank::Nine => 7,
            Rank::Ten => 8,
            Rank::Jack => 9,
            Rank::Queen => 10,
            Rank::King => 11,
            Rank::Ace => 12,
        }
    }

    /// Builds a rank from its `0..13` index.
    pub fn from_index(index: u8) -> (rank: Option<Rank>)
        ensures
            index < 13 ==> rank == Some(rank_at(index as int)),
            index >= 13 ==> rank is None,
    {
        match index {
            0 => Some(Rank::Two),
            1 => Some(Rank::Three),
            2 => Some(Rank::Four),
            3 => Some(Rank::Five),
            4 => Some(Rank::Six),
            5 => Some(Rank::Seven),
            6 => Some(Rank::Eight),
            7 => Some(Rank::Nine),
            8 => Some(Rank::Ten),
            9 => Some(Rank::Jack),
            10 => Some(Rank::Queen),
            11 => Some(Rank::King),
            12 => Some(Rank::Ace),
            _ => None,
        }
    }

    pub fn index(self) -> (index: u8)
        ensures
            index == self.order(),
            index < 13,
    {
        match self {
            Rank::Two => 0,
            Rank::Three => 1,
            Rank::Four => 2,
            Rank::Five => 3,
            Rank::Six => 4,
            Rank::Seven => 5,
            Rank::Eight => 6,
            Rank::Nine => 7,
            Rank::Ten => 8,
            Rank::Jack => 9,
            Rank::Queen => 10,
            Rank::King => 11,
            Rank::Ace => 12,
        }
    }

    /// The character for this rank, e.g. `'T'` for [`Rank::Ten`].
    pub fn to_char(self) -> (c: char)
        ensures
            c == rank_chars()[self.order()],
    {
        match self {
            Rank::Two => '2',
            Rank::Three => '3',
            Rank::Four => '4',
            Rank::Five => '5',
            Rank::Six => '6',
            Rank::Seven => '7',
            Rank::Eight => '8',
            Rank::Nine => '9',
            Rank::Ten => 'T',
            Rank::Jack => 'J',
            Rank::Queen => 'Q',
            Rank::King => 'K',
            Rank::Ace => 'A',
        }
    }

    /// Parses a rank character. Accepts either case.
    pub fn from_char(c: char) -> (rank: Option<Rank>)
        ensures
            rank == rank_named(c),
    {
        match c {
            '2' => Some(Rank::Two),
            '3' => Some(Rank::Three),
            '4' => Some(Rank::Four),
            '5' => Some(Rank::Five),
            '6' => Some(Rank::Six),
            '7' => Some(Rank::Seven),
            '8' => Some(Rank::Eight),
            '9' => Some(Rank::Nine),
            'T' | 't' => Some(Rank::Ten),
            'J' | 'j' => Some(Rank::Jack),
            'Q' | 'q' => Some(Rank::Queen),
            'K' | 'k' => Some(Rank::King),
            'A' | 'a' => Some(Rank::Ace),
            _ => None,
        }
    }

    /// The text of this rank: its character alone.
    pub fn to_string(&self) -> (text: String)
        ensures
            text@ == seq![rank_chars()[self.order()]],
    {
        String::from_str(self.text())
    }

    pub(crate) fn text(self) -> (text: &'static str)
        ensures
            text@ == seq![rank_chars()[self.order()]],
    {
        proof {
            reveal_strlit("2");
            reveal_strlit("3");
            reveal_strlit("4");
            reveal_strlit("5");
            reveal_strlit("6");
            reveal_strlit("7");
            reveal_strlit("8");
            reveal_strlit("9");
            reveal_strlit("T");
            reveal_strlit("J");
            reveal_strlit("Q");
            reveal_strlit("K");
            reveal_strlit("A");
        }
        match self {
            Rank::Two => "2",
            Rank::Three => "3",
            Rank::Four => "4",
            Rank::Five => "5",
            Rank::Six => "6",
            Rank::Seven => "7",
            Rank::Eight => "8",
            Rank::Nine => "9",
            Rank::Ten => "T",
            Rank::Jack => "J",
            Rank::Queen => "Q",
            Rank::King => "K",
            Rank::Ace => "A",
        }
    }
}

/// The rank a character names, in either case.
pub open spec fn rank_named(c: char) -> Option<Rank> {
    match c {
        '2' => Some(Rank::Two),
        '3' => Some(Rank::Three),
        '4' => Some(Rank::Four),
        '5' => Some(Rank::Five),
        '6' => Some(Rank::Six),
        '7' => Some(Rank::Seven),
        '8' => Some(Rank::Eight),
        '9' => Some(Rank::Nine),
        'T' | 't' => Some(Rank::Ten),
        'J' | 'j' => Some(Rank::Jack),
        'Q' | 'q' => Some(Rank::Queen),
        'K' | 'k' => Some(Rank::King),
        'A' | 'a' => Some(Rank::Ace),
        _ => None,
    }
}

/// The suit a character names, in either case.
pub open spec fn suit_named(c: char) -> Option<Suit> {
    match c {
        'c' | 'C' => Some(Suit::Clubs),
        'd' | 'D' => Some(Suit::Diamonds),
        'h' | 'H' => Some(Suit::Hearts),
        's' | 'S' => Some(Suit::Spades),
        _ => None,
    }
}

impl Suit {
    pub const ALL: [Suit; 4] = [Suit::Clubs, Suit::Diamonds, Suit::Hearts, Suit::Spades];

    /// The position of this suit in the order, from 0 for clubs to 3 for spades.
    pub open spec fn order(self) -> int {
        match self {
            Suit::Clubs => 0,
            Suit::Diamonds => 1,
            Suit::Hearts => 2,
            Suit::Spades => 3,
        }
    }

    /// Builds a suit from its `0..4` index.
    pub fn from_index(index: u8) -> (suit: Option<Suit>)
        ensures
            index < 4 ==> suit == Some(suit_at(index as int)),
            index >= 4 ==> suit is None,
    {
        match index {
            0 => Some(Suit::Clubs),
            1 => Some(Suit::Diamonds),
            2 => Some(Suit::Hearts),
            3 => Some(Suit::Spades),
            _ => None,
        }
    }

    pub fn index(self) -> (index: u8)
        ensures
            index == self.order(),
            index < 4,
    {
        match self {
            Suit::Clubs => 0,
            Suit::Diamonds => 1,
            Suit::Hearts => 2,
            Suit::Spades => 3,
        }
    }

    pub fn to_char(self) -> (c: char)
        ensures
            c == suit_chars()[self.order()],
    {
        match self {
            Suit::Clubs => 'c',
            Suit::Diamonds => 'd',
            Suit::Hearts => 'h',
            Suit::Spades => 's',
        }
    }

    /// Parses a suit character. Accepts either case.
    pub fn from_char(c: char) -> (suit: Option<Suit>)
        ensures
            suit == suit_named(c),
    {
        match c {
            'c' | 'C' => Some(Suit::Clubs),
            'd' | 'D' => Some(Suit::Diamonds),
            'h' | 'H' => Some(Suit::Hearts),
            's' | 'S' => Some(Suit::Spades),
            _ => None,
        }
    }

    /// The text of this suit: its character alone.
    pub fn to_string(&self) -> (text: String)
        ensures
            text@ == seq![suit_chars()[self.order()]],
    {
        String::from_str(self.text())
    }

    pub(crate) fn text(self) -> (text: &'static str)
        ensures
            text@ == seq![suit_chars()[self.order()]],
    {
        proof {
            reveal_strlit("c");
            reveal_strlit("d");
            reveal_strlit("h");
            reveal_strlit("s");
        }
        match self {
            Suit::Clubs => "c",
            Suit::Diamonds => "d",
            Suit::Hearts => "h",
            Suit::Spades => "s",
        }
    }
}

/// A single playing card.
#[derive(Debug, Clone, Copy, PartialEq, Eq, PartialOrd, Ord, Hash, Structural)]
pub struct Card {
    pub rank: Rank,
    pub suit: Suit,
}

/// The card with the given rank and suit indices.
pub open spec fn card_at(rank: int, suit: int) -> Card {
    card_of(rank_at(rank), suit_at(suit))
}

/// The card of a rank and a suit.
pub open spec fn card_of(rank: Rank, suit: Suit) -> Card {
    Card { rank, suit }
}

/// The two characters that name a card.
pub open spec fn card_text(card: Card) -> Seq<char> {
    seq![rank_chars()[card.rank_order()], suit_chars()[card.suit_order()]]
}

/// What a text names as a single card: the card, or why there is none.
pub open spec fn card_named(text: Seq<char>) -> Result<Card, ParseCardError> {
    if text.len() != 2 {
        Err(ParseCardError::WrongLength(text.len() as usize))
    } else {
        match rank_named(text[0]) {
            None => Err(ParseCardError::BadRank(text[0])),
            Some(rank) => match suit_named(text[1]) {
                None => Err(ParseCardError::BadSuit(text[1])),
                Some(suit) => Ok(card_of(rank, suit)),
            },
        }
    }
}

impl Card {
    /// The index of the rank, `0..13`.
    pub open spec fn rank_order(self) -> int {
        self.rank.order()
    }

    /// The index of the suit, `0..4`.
    pub open spec fn suit_order(self) -> int {
        self.suit.order()
    }

    /// The index of the card, `0..52`.
    pub open spec fn order(self) -> int {
        self.rank_order() * 4 + self.suit_order()
    }

    /// Builds a card from a rank and suit.
    pub fn new(rank: Rank, suit: Suit) -> (card: Card)
        ensures
            card == card_of(rank, suit),
    {
        Card { rank, suit }
    }

    /// Builds a card from its `0..52` index.
    pub fn from_index(index: u8) -> (card: Option<Card>)
        ensures
            index < 52 ==> card is Some && card->0.order() == index,
            index >= 52 ==> card is None,
    {
        if index >= 52 {
            return None;
        }
        match (Rank::from_index(index / 4), Suit::from_index(index % 4)) {
            (Some(rank), Some(suit)) => Some(Card { rank, suit }),
            _ => None,
        }
    }

    /// The card with an index that is known to be one.
    pub fn from_index_unchecked(index: u8) -> (card: Card)
        requires
            index < 52,
        ensures
            card.order() == index,
    {
        match Card::from_index(index) {
            Some(card) => card,
            None => Card { rank: Rank::Two, suit: Suit::Clubs },
        }
    }

    pub fn index(self) -> (index: u8)
        ensures
            index == self.order(),
            index < 52,
    {
        self.rank.index() * 4 + self.suit.index()
    }

    pub fn rank(self) -> (rank: Rank)
        ensures
            rank == self.rank,
    {
        self.rank
    }

    pub fn suit(self) -> (suit: Suit)
        ensures
            suit == self.suit,
    {
        self.suit
    }

    /// This card as a one-hot bit in a 52-bit [`CardSet`] mask.
    pub fn to_bit(self) -> (bit: u64)
        ensures
            bit == 1u64 << (self.order() as u64),
            forall|i: u64| i < 64 ==> (#[trigger] bits::bit64(bit, i) == (i == self.order())),
    {
        let bit: u64 = 1u64 << (self.index() as u64);
        proof {
            assert forall|i: u64| i < 64 implies (#[trigger] bits::bit64(bit, i) == (i == self.order())) by {
                bits::lemma_set64(0, self.order() as u64, i);
                bits::lemma_deck64(0, i);
                bits::lemma_combine64(0, bit, i);
                assert(0u64 | bit == bit) by (bit_vector);
            }
        }
        bit
    }

    /// Every card in the deck, in index order.
    pub fn all() -> (cards: Vec<Card>)
        ensures
            cards@.len() == 52,
            forall|i: int| 0 <= i < 52 ==> (#[trigger] cards@[i]).order() == i,
    {
        let mut cards: Vec<Card> = Vec::new();
        for index in 0u8..52u8
            invariant
                cards@.len() == index,
                forall|i: int| 0 <= i < index ==> (#[trigger] cards@[i]).order() == i,
        {
            if let Some(card) = Card::from_index(index) {
                cards.push(card);
            }
        }
        cards
    }

    /// The card in the usual notation, e.g. `As`.
    pub fn to_string(&self) -> (text: String)
        ensures
            text@ == card_text(*self),
    {
        let mut text = String::from_str(self.rank.text());
        text.append(self.suit.text());
        assert(text@ =~= card_text(*self));
        text
    }

    /// Parses a card such as `"As"`, `"Td"`, or `"2c"`.
    pub fn from_str(s: &str) -> (card: Result<Card, ParseCardError>)
        ensures
            card == card_named(s@),
    {
        let chars = chars_of(s);
        card_from_chars(chars.as_slice())
    }
}

/// Why a string could not be parsed as a card.
#[derive(Debug, Clone, Copy, PartialEq, Eq, Structural)]
pub enum ParseCardError {
    /// The input was not exactly two characters.
    WrongLength(usize),
    /// The first character was not a valid rank.
    BadRank(char),
    /// The second character was not a valid suit.
    BadSuit(char),
}

/// The characters of a text.
pub fn chars_of(s: &str) -> (chars: Vec<char>)
    ensures
        chars@ == s@,
{
    let mut chars: Vec<char> = Vec::new();
    for c in it: s.chars()
        invariant
            it.seq() == s@,
            chars@ == it.seq().take(it.index() as int),
    {
        chars.push(c);
        assert(chars@ =~= s@.take(it.index() + 1));
    }
    assert(chars@ =~= s@);
    chars
}

pub(crate) fn card_from_chars(chars: &[char]) -> (card: Result<Card, ParseCardError>)
    ensures
        card == card_named(chars@),
{
    if chars.len() != 2 {
        return Err(ParseCardError::WrongLength(chars.len()));
    }
    match Rank::from_char(chars[0]) {
        None => Err(ParseCardError::BadRank(chars[0])),
        Some(rank) => match Suit::from_char(chars[1]) {
            None => Err(ParseCardError::BadSuit(chars[1])),
            Some(suit) => Ok(Card::new(rank, suit)),
        },
    }
}

/// The facts that tie a card to its index: the index is below 52, and no two
/// cards share one.
pub proof fn lemma_order(a: Card, b: Card)
    ensures
        0 <= a.order() < 52,
        a.order() == b.order() ==> a == b,
        card_at(a.rank_order(), a.suit_order()) == a,
{
}

/// Reading back what a card is written as gives the card.
pub proof fn law_card_text_round_trips(card: Card)
    ensures
        card_named(card_text(card)) == Ok::<Card, ParseCardError>(card),
{
}

/// A set of distinct cards held as a 52-bit mask.
#[derive(Debug, Clone, Copy, PartialEq, Eq, Hash, Structural)]
pub struct CardSet {
    mask: u64,
}

impl View for CardSet {
    type V = Set<Card>;

    closed spec fn view(&self) -> Set<Card> {
        Set::new(|card: Card| bits::bit64(self.mask, card.order() as u64))
    }
}

impl Default for CardSet {
    fn default() -> (set: CardSet)
        ensures
            set@ == Set::<Card>::empty(),
    {
        CardSet::empty()
    }
}

impl CardSet {
    #[verifier::type_invariant]
    spec fn within_deck(self) -> bool {
        self.mask < bits::ABOVE_DECK
    }

    /// The raw mask: bit `i` is set when the card of index `i` is present.
    pub closed spec fn bits(self) -> u64 {
        self.mask
    }

    /// The empty set.
    pub fn empty() -> (set: CardSet)
        ensures
            set@ == Set::<Card>::empty(),
    {
        let set = CardSet { mask: 0 };
        proof {
            assert forall|card: Card| !set@.contains(card) by {
                bits::lemma_deck64(0, card.order() as u64);
            }
        }
        set
    }

    /// A full 52-card deck.
    pub fn full_deck() -> (set: CardSet)
        ensures
            set@ == Set::<Card>::full(),
    {
        let set = CardSet { mask: 0xF_FFFF_FFFF_FFFF };
        proof {
            assert forall|card: Card| set@.contains(card) by {
                bits::lemma_deck64(0, card.order() as u64);
            }
            assert(set@ =~= Set::<Card>::full());
        }
        set
    }

    /// Wraps a raw 52-bit mask, ignoring any bits at or above bit 52.
    pub fn from_mask(mask: u64) -> (set: CardSet)
        ensures
            set@ == Set::new(|card: Card| bits::bit64(mask, card.order() as u64)),
            set.bits() == mask & 0xF_FFFF_FFFF_FFFF,
    {
        let kept: u64 = mask & 0xF_FFFF_FFFF_FFFF;
        proof {
            bits::lemma_combine64(mask, 0xF_FFFF_FFFF_FFFF, 0);
        }
        let set = CardSet { mask: kept };
        proof {
            assert forall|card: Card| set@.contains(card) == bits::bit64(mask, card.order() as u64) by {
                bits::lemma_combine64(mask, 0xF_FFFF_FFFF_FFFF, card.order() as u64);
                bits::lemma_deck64(0, card.order() as u64);
            }
            assert(set@ =~= Set::new(|card: Card| bits::bit64(mask, card.order() as u64)));
        }
        set
    }

    pub fn mask(self) -> (mask: u64)
        ensures
            mask == self.bits(),
            mask < 0x10_0000_0000_0000,
            forall|card: Card| (#[trigger] self@.contains(card)) == bits::bit64(mask, card.order() as u64),
    {
        proof {
            use_type_invariant(&self);
        }
        self.mask
    }

    pub fn contains(self, card: Card) -> (present: bool)
        ensures
            present == self@.contains(card),
    {
        proof {
            bits::lemma_test64(self.mask, card.order() as u64);
        }
        self.mask & card.to_bit() != 0
    }

    /// Adds `card`, returning `true` if it was not already present.
    pub fn insert(&mut self, card: Card) -> (added: bool)
        ensures
            final(self)@ == old(self)@.insert(card),
            added == !old(self)@.contains(card),
    {
        proof {
            use_type_invariant(&*self);
            bits::lemma_set64(self.mask, card.order() as u64, 0);
        }
        let had = self.contains(card);
        self.mask = self.mask | card.to_bit();
        proof {
            assert forall|other: Card| self@.contains(other) == old(self)@.insert(card).contains(other) by {
                bits::lemma_set64(old(self).mask, card.order() as u64, other.order() as u64);
                lemma_order(card, other);
            }
            assert(self@ =~= old(self)@.insert(card));
        }
        !had
    }

    /// Removes `card`, returning `true` if it was present.
    pub fn remove(&mut self, card: Card) -> (removed: bool)
        ensures
            final(self)@ == old(self)@.remove(card),
            removed == old(self)@.contains(card),
    {
        proof {
            use_type_invariant(&*self);
            bits::lemma_clear64(self.mask, card.order() as u64, 0);
        }
        let had = self.contains(card);
        self.mask = self.mask & !card.to_bit();
        proof {
            assert forall|other: Card| self@.contains(other) == old(self)@.remove(card).contains(other) by {
                bits::lemma_clear64(old(self).mask, card.order() as u64, other.order() as u64);
                lemma_order(card, other);
            }
            assert(self@ =~= old(self)@.remove(card));
        }
        had
    }

    /// How many cards the set holds.
    pub fn len(self) -> (count: u32)
        ensures
            self@.finite(),
            count == self@.len(),
            count <= 52,
    {
        let mut count: u32 = 0;
        let mut index: u8 = 0;
        proof {
            assert(below(self@, 0) =~= Set::<Card>::empty());
        }
        while index < 52
            invariant
                index <= 52,
                count <= index,
                below(self@, index as int).finite(),
                count == below(self@, index as int).len(),
            decreases 52 - index,
        {
            if let Some(card) = Card::from_index(index) {
                let ghost before = below(self@, index as int);
                let ghost after = below(self@, index + 1);
                proof {
                    assert forall|other: Card| after.contains(other) implies before.contains(other)
                        || other == card by {
                        lemma_order(other, card);
                    }
                }
                if self.contains(card) {
                    assert(after =~= before.insert(card));
                    count = count + 1;
                } else {
                    assert(after =~= before);
                }
            }
            index = index + 1;
        }
        proof {
            assert forall|card: Card| self@.contains(card) implies below(self@, 52).contains(card) by {
                lemma_order(card, card);
            }
            assert(below(self@, 52) =~= self@);
        }
        count
    }

    pub fn is_empty(self) -> (empty: bool)
        ensures
            empty == (self@ == Set::<Card>::empty()),
    {
        proof {
            use_type_invariant(&self);
            if self.mask == 0 {
                assert forall|card: Card| !self@.contains(card) by {
                    bits::lemma_deck64(0, card.order() as u64);
                }
                assert(self@ =~= Set::<Card>::empty());
            } else if self@ == Set::<Card>::empty() {
                assert forall|i: u64| i < 64 implies !bits::bit64(self.mask, i) by {
                    bits::lemma_deck64(self.mask, i);
                    if i < 52 {
                        let card = card_at(i as int / 4, i as int % 4);
                        assert(card.order() == i);
                        assert(!self@.contains(card));
                    }
                }
                bits::lemma_zero64(self.mask);
            }
        }
        self.mask == 0
    }

    pub fn union(self, other: CardSet) -> (set: CardSet)
        ensures
            set@ == self@.union(other@),
    {
        proof {
            use_type_invariant(&self);
            use_type_invariant(&other);
            bits::lemma_combine64(self.mask, other.mask, 0);
        }
        let set = CardSet { mask: self.mask | other.mask };
        proof {
            assert forall|card: Card| set@.contains(card) == self@.union(other@).contains(card) by {
                bits::lemma_combine64(self.mask, other.mask, card.order() as u64);
            }
            assert(set@ =~= self@.union(other@));
        }
        set
    }

    pub fn intersection(self, other: CardSet) -> (set: CardSet)
        ensures
            set@ == self@.intersect(other@),
    {
        proof {
            use_type_invariant(&self);
            bits::lemma_combine64(self.mask, other.mask, 0);
        }
        let set = CardSet { mask: self.mask & other.mask };
        proof {
            assert forall|card: Card| set@.contains(card) == self@.intersect(other@).contains(card) by {
                bits::lemma_combine64(self.mask, other.mask, card.order() as u64);
            }
            assert(set@ =~= self@.intersect(other@));
        }
        set
    }

    /// The cards in `self` that are not in `other`.
    pub fn difference(self, other: CardSet) -> (set: CardSet)
        ensures
            set@ == self@.difference(other@),
    {
        proof {
            use_type_invariant(&self);
            bits::lemma_combine64(self.mask, other.mask, 0);
        }
        let set = CardSet { mask: self.mask & !other.mask };
        proof {
            assert forall|card: Card| set@.contains(card) == self@.difference(other@).contains(card) by {
                bits::lemma_combine64(self.mask, other.mask, card.order() as u64);
            }
            assert(set@ =~= self@.difference(other@));
        }
        set
    }

    /// Whether the two sets have a card in common.
    pub fn intersects(self, other: CardSet) -> (common: bool)
        ensures
            common == !self@.disjoint(other@),
    {
        let both = self.intersection(other);
        proof {
            if both@ == Set::<Card>::empty() {
                assert forall|card: Card| self@.contains(card) implies !other@.contains(card) by {
                    assert(!both@.contains(card));
                }
            } else {
                assert(exists|card: Card| both@.contains(card)) by {
                    if forall|card: Card| !both@.contains(card) {
                        assert(both@ =~= Set::<Card>::empty());
                    }
                }
            }
        }
        !both.is_empty()
    }

    /// The 13-bit rank mask of the cards of `suit` in this set: bit `r` is set
    /// when the card of rank `r` and suit `suit` is present.
    pub fn rank_mask(self, suit: Suit) -> (mask: u16)
        ensures
            is_mask_of(mask, self@, suit),
    {
        let mut mask: u16 = 0;
        let mut r: u8 = 0;
        proof {
            assert forall|q: u16| q < 16 implies !(#[trigger] bits::bit16(mask, q)) by {
                bits::lemma_set16(0, 0, q);
            }
        }
        while r < 13
            invariant
                r <= 13,
                forall|q: u16|
                    q < 16 ==> (#[trigger] bits::bit16(mask, q) == (q < r && self@.contains(
                        card_of(rank_at(q as int), suit),
                    ))),
            decreases 13 - r,
        {
            if let Some(rank) = Rank::from_index(r) {
                if self.contains(Card::new(rank, suit)) {
                    let ghost before = mask;
                    mask = mask | (1u16 << (r as u16));
                    proof {
                        assert forall|q: u16| q < 16 implies (#[trigger] bits::bit16(mask, q) == (q < r + 1
                            && self@.contains(card_of(rank_at(q as int), suit)))) by {
                            bits::lemma_set16(before, r as u16, q);
                            assert(bits::bit16(before, q) == (q < r && self@.contains(
                                card_of(rank_at(q as int), suit),
                            )));
                        }
                    }
                }
            }
            r = r + 1;
        }
        mask
    }

    /// Iterates the cards in ascending index order.
    pub fn iter(self) -> (it: CardSetIter)
        ensures
            it@ == self@,
    {
        CardSetIter { left: self }
    }

    /// The cards of the set, in ascending index order.
    pub fn to_vec(self) -> (cards: Vec<Card>)
        ensures
            cards@.to_set() == self@,
            ascending(cards@),
    {
        let mut cards: Vec<Card> = Vec::new();
        let mut index: u8 = 0;
        while index < 52
            invariant
                index <= 52,
                ascending(cards@),
                forall|i: int| 0 <= i < cards@.len() ==> (#[trigger] cards@[i]).order() < index,
                forall|i: int| 0 <= i < cards@.len() ==> self@.contains(#[trigger] cards@[i]),
                forall|card: Card|
                    self@.contains(card) && card.order() < index ==> cards@.contains(card),
            decreases 52 - index,
        {
            if let Some(card) = Card::from_index(index) {
                let ghost before = cards@;
                let present = self.contains(card);
                if present {
                    cards.push(card);
                }
                proof {
                    assert forall|other: Card| self@.contains(other) && other.order() < index
                        + 1 implies cards@.contains(other) by {
                        lemma_order(card, other);
                        if other.order() < index {
                            assert(before.contains(other));
                            let i = choose|i: int| 0 <= i < before.len() && before[i] == other;
                            assert(cards@[i] == other);
                        } else {
                            assert(cards@[cards@.len() - 1] == other);
                        }
                    }
                }
            }
            index = index + 1;
        }
        proof {
            assert forall|card: Card| cards@.to_set().contains(card) == self@.contains(card) by {
                lemma_order(card, card);
            }
            assert(cards@.to_set() =~= self@);
        }
        cards
    }

    /// The set of the cards in a list.
    pub fn from_cards(cards: &[Card]) -> (set: CardSet)
        ensures
            set@ == cards@.to_set(),
    {
        let mut set = CardSet::empty();
        let mut i: usize = 0;
        proof {
            assert(cards@.take(0).to_set() =~= Set::<Card>::empty());
        }
        while i < cards.len()
            invariant
                i <= cards@.len(),
                set@ == cards@.take(i as int).to_set(),
            decreases cards@.len() - i,
        {
            set.insert(cards[i]);
            proof {
                lemma_take_set(cards@, i as int);
            }
            i = i + 1;
        }
        assert(cards@.take(cards@.len() as int) =~= cards@);
        set
    }
}

/// The members of a set that come before an index.
pub open spec fn below(set: Set<Card>, index: int) -> Set<Card> {
    set.intersect(Set::new(|card: Card| card.order() < index))
}

/// Whether a mask has a bit for each rank of a suit that a set holds, and no
/// other.
pub open spec fn is_mask_of(mask: u16, set: Set<Card>, suit: Suit) -> bool {
    forall|r: u16|
        r < 16 ==> (#[trigger] bits::bit16(mask, r) == (r < 13 && set.contains(card_of(rank_at(r as int), suit))))
}

/// How many of the first `n` bits of a mask are set.
pub open spec fn ones_to(mask: u16, n: int) -> int
    decreases n,
{
    if n <= 0 {
        0
    } else {
        ones_to(mask, n - 1) + (if bits::bit16(mask, (n - 1) as u16) {
            1int
        } else {
            0
        })
    }
}

/// How many bits of a mask are set.
pub open spec fn ones(mask: u16) -> int {
    ones_to(mask, 16)
}

/// One more index is one more card where the set holds it.
proof fn lemma_below_step(set: Set<Card>, card: Card)
    requires
        below(set, card.order()).finite(),
    ensures
        below(set, card.order() + 1).finite(),
        below(set, card.order() + 1).len() == below(set, card.order()).len() + (if set.contains(card) {
            1int
        } else {
            0
        }),
{
    let (before, after) = (below(set, card.order()), below(set, card.order() + 1));
    assert forall|other: Card| after.contains(other) implies before.contains(other) || other == card by {
        lemma_order(other, card);
    }
    if set.contains(card) {
        assert(after =~= before.insert(card));
    } else {
        assert(after =~= before);
    }
}

proof fn lemma_ones_below(set: Set<Card>, clubs: u16, diamonds: u16, hearts: u16, spades: u16, n: int)
    requires
        is_mask_of(clubs, set, Suit::Clubs),
        is_mask_of(diamonds, set, Suit::Diamonds),
        is_mask_of(hearts, set, Suit::Hearts),
        is_mask_of(spades, set, Suit::Spades),
        0 <= n <= 13,
    ensures
        below(set, 4 * n).finite(),
        ones_to(clubs, n) + ones_to(diamonds, n) + ones_to(hearts, n) + ones_to(spades, n) == below(set, 4 * n).len(),
    decreases n,
{
    if n > 0 {
        lemma_ones_below(set, clubs, diamonds, hearts, spades, n - 1);
        let r = (n - 1) as u16;
        assert(bits::bit16(clubs, r) == set.contains(card_of(rank_at(r as int), Suit::Clubs)));
        assert(bits::bit16(diamonds, r) == set.contains(card_of(rank_at(r as int), Suit::Diamonds)));
        assert(bits::bit16(hearts, r) == set.contains(card_of(rank_at(r as int), Suit::Hearts)));
        assert(bits::bit16(spades, r) == set.contains(card_of(rank_at(r as int), Suit::Spades)));
        assert(rank_at(n - 1).order() == n - 1);
        lemma_below_step(set, card_of(rank_at(n - 1), Suit::Clubs));
        lemma_below_step(set, card_of(rank_at(n - 1), Suit::Diamonds));
        lemma_below_step(set, card_of(rank_at(n - 1), Suit::Hearts));
        lemma_below_step(set, card_of(rank_at(n - 1), Suit::Spades));
    } else {
        assert(below(set, 0) =~= Set::<Card>::empty());
    }
}

/// The rank masks of the four suits have as many bits set together as the set
/// has cards.
pub proof fn law_rank_masks_count_the_cards(set: Set<Card>, clubs: u16, diamonds: u16, hearts: u16, spades: u16)
    requires
        is_mask_of(clubs, set, Suit::Clubs),
        is_mask_of(diamonds, set, Suit::Diamonds),
        is_mask_of(hearts, set, Suit::Hearts),
        is_mask_of(spades, set, Suit::Spades),
    ensures
        set.finite(),
        ones(clubs) + ones(diamonds) + ones(hearts) + ones(spades) == set.len(),
{
    lemma_ones_below(set, clubs, diamonds, hearts, spades, 13);
    assert forall|card: Card| set.contains(card) implies below(set, 52).contains(card) by {
        lemma_order(card, card);
    }
    assert(below(set, 52) =~= set);
    lemma_ones_of_ranks(set, clubs, Suit::Clubs);
    lemma_ones_of_ranks(set, diamonds, Suit::Diamonds);
    lemma_ones_of_ranks(set, hearts, Suit::Hearts);
    lemma_ones_of_ranks(set, spades, Suit::Spades);
}

/// No bit of a mask is set beyond those of the thirteen ranks.
proof fn lemma_ones_of_ranks(set: Set<Card>, mask: u16, suit: Suit)
    requires
        is_mask_of(mask, set, suit),
    ensures
        ones(mask) == ones_to(mask, 13),
{
    assert(!bits::bit16(mask, 13) && !bits::bit16(mask, 14) && !bits::bit16(mask, 15));
    assert(ones_to(mask, 14) == ones_to(mask, 13));
    assert(ones_to(mask, 15) == ones_to(mask, 14));
    assert(ones_to(mask, 16) == ones_to(mask, 15));
}

/// The rank mask of a full suit has the thirteen lowest bits set.
pub proof fn law_a_full_suit_has_every_rank(mask: u16, suit: Suit)
    requires
        is_mask_of(mask, Set::<Card>::full(), suit),
    ensures
        mask == 0x1FFF,
{
    assert(bits::bit16(mask, 0) && bits::bit16(mask, 1) && bits::bit16(mask, 2) && bits::bit16(mask, 3));
    assert(bits::bit16(mask, 4) && bits::bit16(mask, 5) && bits::bit16(mask, 6) && bits::bit16(mask, 7));
    assert(bits::bit16(mask, 8) && bits::bit16(mask, 9) && bits::bit16(mask, 10) && bits::bit16(mask, 11));
    assert(bits::bit16(mask, 12) && !bits::bit16(mask, 13) && !bits::bit16(mask, 14) && !bits::bit16(mask, 15));
    bits::lemma_thirteen16(mask);
}

/// Whether a list of cards is strictly ascending by index.
pub open spec fn ascending(cards: Seq<Card>) -> bool {
    forall|i: int, j: int|
        0 <= i < j < cards.len() ==> (#[trigger] cards[i]).order() < (#[trigger] cards[j]).order()
}

pub proof fn lemma_take_set(cards: Seq<Card>, i: int)
    requires
        0 <= i < cards.len(),
    ensures
        cards.take(i + 1).to_set() == cards.take(i).to_set().insert(cards[i]),
        cards.no_duplicates() ==> !cards.take(i).to_set().contains(cards[i]),
{
    let small = cards.take(i);
    let large = cards.take(i + 1);
    assert forall|card: Card| large.to_set().contains(card) == small.to_set().insert(
        cards[i],
    ).contains(card) by {
        if large.contains(card) {
            let k = choose|k: int| 0 <= k < large.len() && large[k] == card;
            if k < i {
                assert(small[k] == card);
            }
        }
        if small.contains(card) {
            let k = choose|k: int| 0 <= k < small.len() && small[k] == card;
            assert(large[k] == card);
        }
        assert(large[i] == cards[i]);
    }
    assert(large.to_set() =~= small.to_set().insert(cards[i]));
}

/// Walks the cards of a [`CardSet`] in ascending index order.
#[derive(Debug, Clone, Copy)]
pub struct CardSetIter {
    left: CardSet,
}

impl View for CardSetIter {
    type V = Set<Card>;

    /// The cards not yet handed out.
    closed spec fn view(&self) -> Set<Card> {
        self.left@
    }
}

impl CardSetIter {
    /// Hands out the lowest card left.
    pub fn next(&mut self) -> (card: Option<Card>)
        ensures
            card is None <==> old(self)@ == Set::<Card>::empty(),
            card is None ==> final(self)@ == old(self)@,
            card matches Some(c) ==> {
                &&& old(self)@.contains(c)
                &&& forall|other: Card| old(self)@.contains(other) ==> c.order() <= other.order()
                &&& final(self)@ == old(self)@.remove(c)
            },
    {
        if self.left.is_empty() {
            return None;
        }
        let mask: u64 = self.left.mask();
        proof {
            bits::lemma_lowest_present(mask);
            if mask == 0 {
                assert forall|c: Card| !self.left@.contains(c) by {
                    bits::lemma_deck64(0, c.order() as u64);
                }
                assert(self.left@ =~= Set::<Card>::empty());
            }
        }
        let index: u64 = mask.trailing_zeros() as u64;
        let card = Card::from_index(index as u8);
        if let Some(c) = card {
            proof {
                assert(self.left@.contains(c));
                assert forall|other: Card| self@.contains(other) implies c.order() <= other.order() by {
                    assert(bits::bit64(mask, other.order() as u64));
                }
            }
            self.left.remove(c);
        }
        card
    }

    /// How many cards are left to hand out.
    pub fn remaining(&self) -> (count: usize)
        ensures
            count == self@.len(),
    {
        self.left.len() as usize
    }
}

/// Whether a character separates cards: Unicode white space.
pub open spec fn is_space(c: char) -> bool {
    let code = c as u32;
    ||| 0x9 <= code <= 0xD
    ||| code == 0x20
    ||| code == 0x85
    ||| code == 0xA0
    ||| code == 0x1680
    ||| 0x2000 <= code <= 0x200A
    ||| code == 0x2028
    ||| code == 0x2029
    ||| code == 0x202F
    ||| code == 0x205F
    ||| code == 0x3000
}

pub(crate) fn space(c: char) -> (is: bool)
    ensures
        is == is_space(c),
{
    let code: u32 = c as u32;
    (0x9 <= code && code <= 0xD) || code == 0x20 || code == 0x85 || code == 0xA0 || code == 0x1680 || (
    0x2000 <= code && code <= 0x200A) || code == 0x2028 || code == 0x2029 || code == 0x202F || code
        == 0x205F || code == 0x3000
}

/// Where the run of characters without white space that starts at `at` ends.
pub open spec fn token_end(text: Seq<char>, at: int) -> int
    decreases text.len() - at,
{
    if at < 0 || at >= text.len() || is_space(text[at]) {
        at
    } else {
        token_end(text, at + 1)
    }
}

proof fn lemma_token_end(text: Seq<char>, at: int)
    requires
        0 <= at <= text.len(),
    ensures
        at <= token_end(text, at) <= text.len(),
        at < text.len() && !is_space(text[at]) ==> at < token_end(text, at),
    decreases text.len() - at,
{
    if at < text.len() && !is_space(text[at]) {
        lemma_token_end(text, at + 1);
    }
}

/// What is wrong with a list of cards: the text at fault, and how.
pub struct Fault {
    pub token: Seq<char>,
    pub kind: ParseCardsErrorKind,
}

/// Reads the two-character cards of a token from position `i` on, after the
/// cards in `seen`.
pub open spec fn pairs_outcome(token: Seq<char>, i: int, seen: Seq<Card>) -> Result<Seq<Card>, Fault>
    decreases token.len() - i,
{
    if i + 1 >= token.len() {
        Ok(seen)
    } else {
        let pair = token.subrange(i, i + 2);
        match card_named(pair) {
            Err(source) => Err(Fault { token: pair, kind: ParseCardsErrorKind::Invalid(source) }),
            Ok(card) => if seen.contains(card) {
                Err(Fault { token: pair, kind: ParseCardsErrorKind::Duplicate })
            } else {
                pairs_outcome(token, i + 2, seen.push(card))
            },
        }
    }
}

/// Reads a list of cards from position `at` on, after the cards in `seen`.
pub open spec fn list_outcome(text: Seq<char>, at: int, seen: Seq<Card>) -> Result<Seq<Card>, Fault>
    decreases text.len() - at,
{
    if at < 0 || at >= text.len() {
        Ok(seen)
    } else if is_space(text[at]) {
        list_outcome(text, at + 1, seen)
    } else {
        let end = token_end(text, at);
        if end <= at || end > text.len() {
            Ok(seen)
        } else {
            let token = text.subrange(at, end);
            if token.len() % 2 != 0 {
                Err(
                    Fault {
                        token,
                        kind: ParseCardsErrorKind::Invalid(ParseCardError::WrongLength(token.len() as usize)),
                    },
                )
            } else {
                match pairs_outcome(token, 0, seen) {
                    Err(fault) => Err(fault),
                    Ok(more) => list_outcome(text, end, more),
                }
            }
        }
    }
}

/// Reads a list of cards: the cards, or the first thing wrong with it.
pub open spec fn cards_outcome(text: Seq<char>) -> Result<Seq<Card>, Fault> {
    list_outcome(text, 0, seq![])
}

/// Why a card list could not be parsed.
#[derive(Debug, Clone, PartialEq, Eq)]
pub struct ParseCardsError {
    pub token: String,
    pub kind: ParseCardsErrorKind,
}

#[derive(Debug, Clone, Copy, PartialEq, Eq, Structural)]
pub enum ParseCardsErrorKind {
    Invalid(ParseCardError),
    Duplicate,
}

/// Whether a result is the outcome described.
pub open spec fn agrees(result: Result<Vec<Card>, ParseCardsError>, outcome: Result<Seq<Card>, Fault>) -> bool {
    match (result, outcome) {
        (Ok(cards), Ok(expected)) => cards@ == expected,
        (Err(error), Err(fault)) => error.token@ == fault.token && error.kind == fault.kind,
        _ => false,
    }
}

/// Parses a list of cards, e.g. `"As Kd 7c"`.
///
/// Cards may be separated by whitespace or run together in the usual poker
/// shorthand, so `"AhKh"`, `"Ah Kh"`, and `"AsAdKsKd"` all parse. This is
/// unambiguous because a card is always exactly two characters.
///
/// Returns an error on the first unparseable card. Duplicates are rejected.
pub fn parse_cards(s: &str) -> (cards: Result<Vec<Card>, ParseCardsError>)
    ensures
        agrees(cards, cards_outcome(s@)),
        cards matches Ok(list) ==> list@.no_duplicates(),
{
    let chars = chars_of(s);
    let mut cards: Vec<Card> = Vec::new();
    let mut seen = CardSet::empty();
    let mut at: usize = 0;
    proof {
        assert(cards@.to_set() =~= Set::<Card>::empty());
    }
    while at < chars.len()
        invariant
            chars@ == s@,
            at <= chars@.len(),
            seen@ == cards@.to_set(),
            cards@.no_duplicates(),
            cards_outcome(s@) == list_outcome(s@, at as int, cards@),
        decreases chars@.len() - at,
    {
        if space(chars[at]) {
            at = at + 1;
            continue ;
        }
        let mut end: usize = at;
        while end < chars.len() && !space(chars[end])
            invariant
                chars@ == s@,
                at <= end <= chars@.len(),
                token_end(s@, at as int) == token_end(s@, end as int),
            decreases chars@.len() - end,
        {
            end = end + 1;
        }
        proof {
            lemma_token_end(s@, at as int);
        }
        let ghost token = s@.subrange(at as int, end as int);
        if (end - at) % 2 != 0 {
            let kind = ParseCardsErrorKind::Invalid(ParseCardError::WrongLength(end - at));
            return Err(ParseCardsError { token: String::from_str(s.substring_char(at, end)), kind });
        }
        let mut i: usize = at;
        let ghost before = cards@;
        while i < end
            invariant
                chars@ == s@,
                at <= i <= end <= chars@.len(),
                (end - at) % 2 == 0,
                (i - at) % 2 == 0,
                token == s@.subrange(at as int, end as int),
                seen@ == cards@.to_set(),
                cards@.no_duplicates(),
                pairs_outcome(token, 0, before) == pairs_outcome(token, i - at, cards@),
                cards_outcome(s@) == (match pairs_outcome(token, 0, before) {
                    Err(fault) => Err(fault),
                    Ok(more) => list_outcome(s@, end as int, more),
                }),
            decreases end - i,
        {
            let pair: [char; 2] = [chars[i], chars[i + 1]];
            assert(pair@ =~= token.subrange(i - at, i - at + 2));
            assert(s@.subrange(i as int, i + 2) =~= pair@);
            match card_from_chars(&pair) {
                Err(source) => {
                    return Err(
                        ParseCardsError {
                            token: String::from_str(s.substring_char(i, i + 2)),
                            kind: ParseCardsErrorKind::Invalid(source),
                        },
                    );
                },
                Ok(card) => {
                    if !seen.insert(card) {
                        return Err(
                            ParseCardsError {
                                token: String::from_str(s.substring_char(i, i + 2)),
                                kind: ParseCardsErrorKind::Duplicate,
                            },
                        );
                    }
                    let ghost earlier = cards@;
                    cards.push(card);
                    proof {
                        lemma_take_set(cards@, earlier.len() as int);
                        assert(cards@.take(earlier.len() as int) =~= earlier);
                        assert(cards@.take(earlier.len() as int + 1) =~= cards@);
                    }
                },
            }
            i = i + 2;
        }
        at = end;
    }
    Ok(cards)
}

/// The names of a list of cards, with spaces between.
pub open spec fn cards_text(cards: Seq<Card>) -> Seq<char>
    decreases cards.len(),
{
    if cards.len() == 0 {
        seq![]
    } else if cards.len() == 1 {
        card_text(cards[0])
    } else {
        cards_text(cards.drop_last()) + " "@ + card_text(cards.last())
    }
}

/// Renders cards as `As Kd`.
pub fn show(cards: &[Card]) -> (text: String)
    ensures
        text@ == cards_text(cards@),
{
    let mut text = String::new();
    let mut i: usize = 0;
    while i < cards.len()
        invariant
            i <= cards@.len(),
            text@ == cards_text(cards@.take(i as int)),
        decreases cards@.len() - i,
    {
        if i > 0 {
            text.append(" ");
        }
        text.append(cards[i].to_string().as_str());
        proof {
            let longer = cards@.take(i + 1);
            assert(longer.drop_last() =~= cards@.take(i as int));
            assert(longer.last() == cards@[i as int]);
            assert(text@ =~= cards_text(longer));
        }
        i = i + 1;
    }
    assert(cards@.take(i as int) =~= cards@);
    text
}

proof fn lemma_cards_text(cards: Seq<Card>)
    requires
        cards.len() > 0,
    ensures
        cards_text(cards).len() == 3 * cards.len() - 1,
        forall|i: int|
            0 <= i < cards.len() ==> {
                &&& #[trigger] cards_text(cards)[3 * i] == card_text(cards[i])[0]
                &&& cards_text(cards)[3 * i + 1] == card_text(cards[i])[1]
                &&& i + 1 < cards.len() ==> cards_text(cards)[3 * i + 2] == ' '
            },
    decreases cards.len(),
{
    reveal_strlit(" ");
    if cards.len() > 1 {
        let shorter = cards.drop_last();
        lemma_cards_text(shorter);
        let text = cards_text(cards);
        assert forall|i: int| 0 <= i < cards.len() implies {
            &&& #[trigger] text[3 * i] == card_text(cards[i])[0]
            &&& text[3 * i + 1] == card_text(cards[i])[1]
            &&& i + 1 < cards.len() ==> text[3 * i + 2] == ' '
        } by {
            if i + 1 < cards.len() {
                assert(cards_text(shorter)[3 * i] == card_text(shorter[i])[0]);
                assert(shorter[i] == cards[i]);
            }
        }
    }
}

proof fn lemma_shown_from(cards: Seq<Card>, k: int)
    requires
        cards.len() > 0,
        cards.no_duplicates(),
        0 <= k <= cards.len(),
    ensures
        list_outcome(cards_text(cards), 3 * k, cards.take(k)) == Ok::<Seq<Card>, Fault>(cards),
    decreases cards.len() - k,
{
    let text = cards_text(cards);
    lemma_cards_text(cards);
    if k == cards.len() {
        assert(cards.take(k) =~= cards);
    } else {
        lemma_shown_from(cards, k + 1);
        let at = 3 * k;
        let card = cards[k];
        assert(text[3 * k] == card_text(card)[0]);
        let pair = text.subrange(at, at + 2);
        assert(pair =~= card_text(card));
        law_card_text_round_trips(card);
        assert(!is_space(text[at]) && !is_space(text[at + 1]));
        reveal_with_fuel(token_end, 3);
        let end = token_end(text, at);
        assert(end == at + 2) by {
            if k + 1 < cards.len() {
                assert(is_space(' '));
            }
        }
        assert(pair.subrange(0, 2) =~= pair);
        assert(!cards.take(k).contains(card)) by {
            if cards.take(k).contains(card) {
                let j = choose|j: int| 0 <= j < k && cards.take(k)[j] == card;
                assert(cards[j] == cards[k]);
            }
        }
        reveal_with_fuel(pairs_outcome, 2);
        assert(cards.take(k).push(card) =~= cards.take(k + 1));
        reveal_with_fuel(list_outcome, 3);
        if k + 1 < cards.len() {
            assert(is_space(text[at + 2]));
        }
    }
}

/// Reading back a shown list of distinct cards gives the list.
pub proof fn law_shown_cards_read_back(cards: Seq<Card>)
    requires
        cards.no_duplicates(),
    ensures
        cards_outcome(cards_text(cards)) == Ok::<Seq<Card>, Fault>(cards),
{
    if cards.len() > 0 {
        lemma_shown_from(cards, 0);
        assert(cards.take(0) =~= seq![]);
    } else {
        assert(cards =~= seq![]);
    }
}

impl ParseCardError {
    /// The words for the error.
    pub open spec fn words(self) -> Seq<char> {
        match self {
            ParseCardError::WrongLength(found) => "expected 2 characters (e.g. \"As\"), got "@
                + text::digits(found as int),
            ParseCardError::BadRank(c) => "invalid rank character "@ + text::quoted_char(c),
            ParseCardError::BadSuit(c) => "invalid suit character "@ + text::quoted_char(c),
        }
    }

    /// What was wrong, in words.
    pub fn to_string(&self) -> (words: String)
        ensures
            words@ == self.words(),
    {
        let (start, rest): (&str, String) = match self {
            ParseCardError::WrongLength(found) => (
                "expected 2 characters (e.g. \"As\"), got ",
                text::decimal(*found as u64),
            ),
            ParseCardError::BadRank(c) => ("invalid rank character ", text::quote_char(*c)),
            ParseCardError::BadSuit(c) => ("invalid suit character ", text::quote_char(*c)),
        };
        let mut words: String = String::from_str(start);
        words.append(rest.as_str());
        words
    }
}

impl ParseCardsError {
    /// The words for the error.
    pub open spec fn words(self) -> Seq<char> {
        match self.kind {
            ParseCardsErrorKind::Invalid(source) => "could not parse "@ + text::quoted_text(
                self.token@,
            ) + ": "@ + source.words(),
            ParseCardsErrorKind::Duplicate => "duplicate card "@ + text::quoted_text(self.token@),
        }
    }

    /// What was wrong, in words.
    pub fn to_string(&self) -> (words: String)
        ensures
            words@ == self.words(),
    {
        let token: String = text::quote_text(self.token.as_str());
        match &self.kind {
            ParseCardsErrorKind::Invalid(source) => {
                let mut words: String = String::from_str("could not parse ");
                words.append(token.as_str());
                words.append(": ");
                let rest: String = source.to_string();
                words.append(rest.as_str());
                words
            },
            ParseCardsErrorKind::Duplicate => {
                let mut words: String = String::from_str("duplicate card ");
                words.append(token.as_str());
                words
            },
        }
    }
}

impl CardSet {
    /// The cards in brackets, in index order.
    pub fn to_string(&self) -> (words: String)
        ensures
            exists|cards: Seq<Card>|
                cards.to_set() == self@ && ascending(cards) && words@ == "["@
                    + #[trigger] cards_text(cards) + "]"@,
    {
        let cards: Vec<Card> = self.to_vec();
        let mut words: String = String::from_str("[");
        let list: String = show(cards.as_slice());
        words.append(list.as_str());
        words.append("]");
        assert(words@ == "["@ + cards_text(cards@) + "]"@);
        words
    }
}

/// The characters of cards: a digit from two to nine, or `T`, `J`, `Q`, `K` or
/// `A`, for the rank, and `c`, `d`, `h` or `s` for the suit.
pub proof fn law_cards_are_named_by_rank_and_suit(card: Card)
    ensures
        ({
            let text = card_text(card);
            &&& text.len() == 2
            &&& text[0] == (match card.rank {
                Rank::Two => '2',
                Rank::Three => '3',
                Rank::Four => '4',
                Rank::Five => '5',
                Rank::Six => '6',
                Rank::Seven => '7',
                Rank::Eight => '8',
                Rank::Nine => '9',
                Rank::Ten => 'T',
                Rank::Jack => 'J',
                Rank::Queen => 'Q',
                Rank::King => 'K',
                Rank::Ace => 'A',
            })
            &&& text[1] == (match card.suit {
                Suit::Clubs => 'c',
                Suit::Diamonds => 'd',
                Suit::Hearts => 'h',
                Suit::Spades => 's',
            })
        }),
{
}

/// Cards are numbered by rank from the two up, and within a rank by suit: clubs,
/// diamonds, hearts, spades.
pub proof fn law_cards_are_numbered_by_rank_and_suit(one: Card, other: Card)
    ensures
        0 <= one.order() < 52,
        one.rank.order() < other.rank.order() ==> one.order() < other.order(),
        one.rank == other.rank ==> one.order() - other.order() == one.suit.order() - other.suit.order(),
        one.order() == other.order() ==> one == other,
        Rank::Two.order() == 0 && Rank::Ten.order() == 8 && Rank::Jack.order() == 9 && Rank::Queen.order() == 10
            && Rank::King.order() == 11 && Rank::Ace.order() == 12,
        Suit::Clubs.order() == 0 && Suit::Diamonds.order() == 1 && Suit::Hearts.order() == 2 && Suit::Spades.order() == 3,
{
    lemma_order(one, other);
}

/// A list that names a card twice, or something that is no card, is refused;
/// what a list is read as has no card twice.
pub proof fn law_lists_have_no_card_twice(text: Seq<char>)
    ensures
        cards_outcome(text) matches Ok(cards) ==> cards.no_duplicates(),
{
    lemma_list_is_distinct(text, 0, seq![]);
}

proof fn lemma_pairs_are_distinct(token: Seq<char>, i: int, seen: Seq<Card>)
    requires
        seen.no_duplicates(),
        0 <= i,
    ensures
        pairs_outcome(token, i, seen) matches Ok(more) ==> {
            &&& more.no_duplicates()
            &&& more.len() == seen.len() + (if i < token.len() {
                (token.len() - i) / 2
            } else {
                0
            })
            &&& more.take(seen.len() as int) == seen
        },
    decreases token.len() - i,
{
    if i + 1 < token.len() {
        let pair = token.subrange(i, i + 2);
        if let Ok(card) = card_named(pair) {
            if !seen.contains(card) {
                let next = seen.push(card);
                assert(next.no_duplicates());
                lemma_pairs_are_distinct(token, i + 2, next);
                if let Ok(more) = pairs_outcome(token, i + 2, next) {
                    assert(more.take(seen.len() as int) =~= next.take(seen.len() as int)) by {
                        assert(more.take(next.len() as int).take(seen.len() as int) =~= more.take(seen.len() as int));
                    }
                    assert(next.take(seen.len() as int) =~= seen);
                }
            }
        }
    } else {
        assert(seen.take(seen.len() as int) =~= seen);
    }
}

proof fn lemma_list_is_distinct(text: Seq<char>, at: int, seen: Seq<Card>)
    requires
        seen.no_duplicates(),
        0 <= at,
    ensures
        list_outcome(text, at, seen) matches Ok(cards) ==> cards.no_duplicates(),
    decreases text.len() - at,
{
    if at < text.len() {
        if is_space(text[at]) {
            lemma_list_is_distinct(text, at + 1, seen);
        } else {
            let end = token_end(text, at);
            if at < end <= text.len() {
                let token = text.subrange(at, end);
                if token.len() % 2 == 0 {
                    lemma_pairs_are_distinct(token, 0, seen);
                    if let Ok(more) = pairs_outcome(token, 0, seen) {
                        lemma_list_is_distinct(text, end, more);
                    }
                }
            }
        }
    }
}

} // verus!
