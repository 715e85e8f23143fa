//! What a command line asks for: games, stages, flags and labels.
use vstd::prelude::*;

use crate::abstraction::HandClass;
use crate::betting::Action;
use crate::blueprint;
use crate::blueprint::Blueprint;
use crate::card;
use crate::card::Rank;
use crate::double;
use crate::natural::Natural;
use crate::table::MOST_SEATS;
use crate::text;

verus! {

/// A game that a blueprint can describe, recorded in its label.
#[derive(Debug, Clone, Copy, PartialEq, Eq, Structural)]
pub enum Kind {
    PushFold,
    Preflop,
    /// Multiway preflop for a table of so many seats.
    Ring(usize),
}

/// Why a name is no game.
#[derive(Debug, Clone, Copy, PartialEq, Eq, Structural)]
pub enum KindError {
    /// No game is called that.
    UnknownGame,
    /// A ring game of something that is no number.
    UnknownRing,
    /// A ring game of a number of seats that is not solved.
    SeatsOutOfRange,
}

/// Whether a text begins with another.
pub open spec fn starts(text: Seq<char>, start: Seq<char>) -> bool {
    start.len() <= text.len() && text.subrange(0, start.len() as int) == start
}

/// The game of that name.
pub open spec fn kind_named(name: Seq<char>) -> Result<Kind, KindError> {
    if name == "pushfold"@ {
        Ok(Kind::PushFold)
    } else if name == "preflop"@ {
        Ok(Kind::Preflop)
    } else if starts(name, "ring"@) {
        match text::number_of(name.skip(4)) {
            None => Err(KindError::UnknownRing),
            Some(seats) => if 3 <= seats <= MOST_SEATS {
                Ok(Kind::Ring(seats as usize))
            } else {
                Err(KindError::SeatsOutOfRange)
            },
        }
    } else {
        Err(KindError::UnknownGame)
    }
}

/// The part of a label before its first slash.
pub open spec fn first_part(label: Seq<char>) -> Seq<char> {
    match text::found(label, "/"@, 0) {
        Some(at) => label.take(at),
        None => label,
    }
}

impl Kind {
    /// The name of the game.
    pub open spec fn words(self) -> Seq<char> {
        match self {
            Kind::PushFold => "pushfold"@,
            Kind::Preflop => "preflop"@,
            Kind::Ring(3) => "ring3"@,
            Kind::Ring(4) => "ring4"@,
            Kind::Ring(5) => "ring5"@,
            Kind::Ring(6) => "ring6"@,
            Kind::Ring(_) => "ring7"@,
        }
    }

    /// The names of the stages of the game, in tree order. Ring games have no
    /// ladder of stages to name.
    pub open spec fn stage_words(self) -> Seq<Seq<char>> {
        match self {
            Kind::PushFold => seq!["sb"@, "bb"@],
            Kind::Ring(_) => Seq::empty(),
            Kind::Preflop => seq![
                "sb-open"@,
                "bb-vs-open"@,
                "sb-vs-3bet"@,
                "bb-vs-4bet"@,
                "sb-vs-jam"@,
                "bb-vs-jam"@,
            ],
        }
    }

    /// The names of the actions of a stage.
    pub open spec fn action_words(self, stage: int) -> Seq<Seq<char>> {
        match self {
            Kind::PushFold => if stage == 0 {
                seq!["fold"@, "jam"@]
            } else {
                seq!["fold"@, "call"@]
            },
            _ => if stage == 0 {
                seq!["fold"@, "raise"@, "jam"@]
            } else if stage == 1 || stage == 2 {
                seq!["fold"@, "call"@, "raise"@, "jam"@]
            } else if stage == 3 {
                seq!["fold"@, "call"@, "jam"@]
            } else {
                seq!["fold"@, "call"@]
            },
        }
    }

    /// The game of that name.
    pub fn parse(name: &str) -> (kind: Result<Kind, KindError>)
        ensures
            kind == kind_named(name@),
    {
        if text::same(name, "pushfold") {
            return Ok(Kind::PushFold);
        }
        if text::same(name, "preflop") {
            return Ok(Kind::Preflop);
        }
        let chars: Vec<char> = card::chars_of(name);
        let ring: Vec<char> = card::chars_of("ring");
        proof {
            reveal_strlit("ring");
        }
        if !text::stands_at(&chars, &ring, 0) {
            return Err(KindError::UnknownGame);
        }
        match text::parse_number(&chars, 4) {
            None => Err(KindError::UnknownRing),
            Some(seats) => {
                if 3 <= seats && seats <= MOST_SEATS {
                    Ok(Kind::Ring(seats))
                } else {
                    Err(KindError::SeatsOutOfRange)
                }
            },
        }
    }

    /// The name of the game.
    pub fn name(self) -> (name: &'static str)
        ensures
            name@ == self.words(),
    {
        match self {
            Kind::PushFold => "pushfold",
            Kind::Preflop => "preflop",
            Kind::Ring(3) => "ring3",
            Kind::Ring(4) => "ring4",
            Kind::Ring(5) => "ring5",
            Kind::Ring(6) => "ring6",
            Kind::Ring(_) => "ring7",
        }
    }

    /// The game that the label of a blueprint names, or what to say of a label
    /// that names none.
    pub fn from_label(label: &str) -> (kind: Result<Kind, String>)
        ensures
            match kind {
                Ok(kind) => kind_named(first_part(label@)) == Ok::<Kind, KindError>(kind),
                Err(words) => {
                    &&& kind_named(first_part(label@)) is Err
                    &&& words@ == "blueprint label "@ + text::quoted_text(label@) + " does not name a known game"@
                },
            },
    {
        let chars: Vec<char> = card::chars_of(label);
        let size: usize = chars.len();
        let end: usize = match text::find(&chars, &card::chars_of("/")) {
            Some(at) => at,
            None => size,
        };
        assert(label@.subrange(0, end as int) =~= first_part(label@));
        match Kind::parse(label.substring_char(0, end)) {
            Ok(kind) => Ok(kind),
            Err(_) => {
                let mut words: String = String::from_str("blueprint label ");
                let quoted: String = text::quote_text(label);
                words.append(quoted.as_str());
                words.append(" does not name a known game");
                Err(words)
            },
        }
    }

    /// The names of the stages of the game, in tree order.
    pub fn stages(self) -> (stages: Vec<&'static str>)
        ensures
            stages@.len() == self.stage_words().len(),
            forall|i: int| 0 <= i < stages@.len() ==> (#[trigger] stages@[i])@ == self.stage_words()[i],
    {
        match self {
            Kind::PushFold => vec!["sb", "bb"],
            Kind::Ring(_) => Vec::new(),
            Kind::Preflop => vec![
                "sb-open",
                "bb-vs-open",
                "sb-vs-3bet",
                "bb-vs-4bet",
                "sb-vs-jam",
                "bb-vs-jam",
            ],
        }
    }

    /// The place of a stage in tree order.
    pub fn stage_index(self, stage: &str) -> (index: Option<usize>)
        ensures
            match index {
                Some(index) => index < self.stage_words().len() && self.stage_words()[index as int]
                    == stage@,
                None => !self.stage_words().contains(stage@),
            },
    {
        let stages: Vec<&'static str> = self.stages();
        let mut i: usize = 0;
        while i < stages.len()
            invariant
                i <= stages@.len(),
                stages@.len() == self.stage_words().len(),
                forall|k: int|
                    0 <= k < stages@.len() ==> (#[trigger] stages@[k])@ == self.stage_words()[k],
                forall|k: int| 0 <= k < i ==> #[trigger] self.stage_words()[k] != stage@,
            decreases stages@.len() - i,
        {
            assert(stages@[i as int]@ == self.stage_words()[i as int]);
            if text::same(stages[i], stage) {
                return Some(i);
            }
            i = i + 1;
        }
        None
    }

    /// The names of the actions at a stage, if the game has the stage.
    pub fn actions(self, stage: &str) -> (actions: Option<Vec<&'static str>>)
        ensures
            match actions {
                Some(actions) => exists|index: int|
                    {
                        &&& 0 <= index < self.stage_words().len()
                        &&& #[trigger] self.stage_words()[index] == stage@
                        &&& actions@.len() == self.action_words(index).len()
                        &&& forall|i: int|
                            0 <= i < actions@.len() ==> (#[trigger] actions@[i])@
                                == self.action_words(index)[i]
                    },
                None => !self.stage_words().contains(stage@),
            },
    {
        let index: usize = match self.stage_index(stage) {
            Some(index) => index,
            None => {
                return None;
            },
        };
        let actions: Vec<&'static str> = match self {
            Kind::PushFold => {
                if index == 0 {
                    vec!["fold", "jam"]
                } else {
                    vec!["fold", "call"]
                }
            },
            _ => match index {
                0 => vec!["fold", "raise", "jam"],
                1 | 2 => vec!["fold", "call", "raise", "jam"],
                3 => vec!["fold", "call", "jam"],
                _ => vec!["fold", "call"],
            },
        };
        assert(self.stage_words()[index as int] == stage@);
        Some(actions)
    }

    /// The first stage of a game that has any.
    pub fn default_stage(self) -> (stage: &'static str)
        requires
            !(self is Ring),
        ensures
            stage@ == self.stage_words()[0],
    {
        match self {
            Kind::PushFold => "sb",
            _ => "sb-open",
        }
    }

    /// The stage of which a player's range is shown, in a game that has stages:
    /// the big blind's own, or else the first.
    pub fn chart_stage(self, player: &str) -> (stage: Option<&'static str>)
        ensures
            match stage {
                Some(stage) => !(self is Ring) && stage@ == self.stage_words()[if player@ == "bb"@ {
                    1int
                } else {
                    0
                }],
                None => self is Ring,
            },
    {
        let big: bool = text::same(player, "bb");
        match self {
            Kind::PushFold => Some(
                if big {
                    "bb"
                } else {
                    "sb"
                },
            ),
            Kind::Preflop => Some(
                if big {
                    "bb-vs-open"
                } else {
                    "sb-open"
                },
            ),
            Kind::Ring(_) => None,
        }
    }
}

/// Every game is found again under its own name.
pub proof fn law_games_keep_their_names(kind: Kind)
    requires
        kind matches Kind::Ring(seats) ==> 3 <= seats <= MOST_SEATS,
    ensures
        kind_named(kind.words()) == Ok::<Kind, KindError>(kind),
{
    reveal_strlit("pushfold");
    reveal_strlit("preflop");
    reveal_strlit("ring");
    reveal_strlit("ring3");
    reveal_strlit("ring4");
    reveal_strlit("ring5");
    reveal_strlit("ring6");
    reveal_strlit("ring7");
    let name = kind.words();
    assert("pushfold"@.len() == 8 && "preflop"@.len() == 7);
    if let Kind::Ring(seats) = kind {
        assert(name.len() == 5);
        assert(name.subrange(0, 4) =~= "ring"@);
        let rest = name.skip(4);
        assert(rest.len() == 1);
        assert(rest[0] == text::digit(seats as int));
        assert(rest.drop_last() =~= Seq::empty());
        assert(text::value_of(Seq::<char>::empty()) == 0);
        assert(text::value_of(rest) == seats);
        assert(text::is_decimal(rest));
        assert(text::number_of(rest) == Some(seats as int));
    }
}

/// What the command line was found not to say.
#[derive(Debug, Clone, PartialEq, Eq)]
pub enum FlagError {
    /// Something stands where a flag should.
    Expected(String),
    /// A flag that is no switch has no value.
    NeedsValue(String),
}

/// The flags that are switches, and mean `on` when given alone.
pub open spec fn is_switch(name: Seq<char>) -> bool {
    name == "explain"@ || name == "monitor"@ || name == "resize"@
}

/// What is wrong with arguments, and with which of them.
pub enum Fault {
    Expected(int),
    NeedsValue(int),
}

/// Whether an argument is a flag.
pub open spec fn is_flag(argument: Seq<char>) -> bool {
    starts(argument, "--"@)
}

/// The names and values that arguments give, from `at` on: a flag and a value
/// in turn, or a switch alone.
pub open spec fn pairs_from(args: Seq<Seq<char>>, at: int) -> Result<Seq<(Seq<char>, Seq<char>)>, Fault>
    decreases args.len() - at,
{
    if at >= args.len() {
        Ok(Seq::empty())
    } else if !is_flag(args[at]) {
        Err(Fault::Expected(at))
    } else {
        let name = args[at].skip(2);
        if at + 1 < args.len() && !is_flag(args[at + 1]) {
            match pairs_from(args, at + 2) {
                Ok(rest) => Ok(seq![(name, args[at + 1])] + rest),
                Err(fault) => Err(fault),
            }
        } else if is_switch(name) {
            match pairs_from(args, at + 1) {
                Ok(rest) => Ok(seq![(name, "on"@)] + rest),
                Err(fault) => Err(fault),
            }
        } else {
            Err(Fault::NeedsValue(at))
        }
    }
}

/// Texts as their characters.
pub open spec fn all_chars(texts: Seq<String>) -> Seq<Seq<char>> {
    texts.map_values(|text: String| text@)
}

/// The value that was last given for a name.
pub open spec fn value_for(pairs: Seq<(Seq<char>, Seq<char>)>, name: Seq<char>) -> Option<Seq<char>>
    decreases pairs.len(),
{
    if pairs.len() == 0 {
        None
    } else if pairs.last().0 == name {
        Some(pairs.last().1)
    } else {
        value_for(pairs.drop_last(), name)
    }
}

/// The flags of a command.
#[derive(Debug, Clone, PartialEq, Eq)]
pub struct Flags {
    pub values: Vec<(String, String)>,
}

impl View for Flags {
    type V = Seq<(Seq<char>, Seq<char>)>;

    open spec fn view(&self) -> Seq<(Seq<char>, Seq<char>)> {
        self.values@.map_values(|pair: (String, String)| (pair.0@, pair.1@))
    }
}

/// Whether an argument is a flag.
fn looks_like_flag(argument: &str) -> (flag: bool)
    ensures
        flag == is_flag(argument@),
        flag ==> argument@.len() >= 2,
{
    proof {
        reveal_strlit("--");
    }
    text::stands_at(&card::chars_of(argument), &card::chars_of("--"), 0)
}

/// Whether parsed flags are what the arguments give.
pub open spec fn reads_as(
    found: Result<Flags, FlagError>,
    args: Seq<Seq<char>>,
    expected: Result<Seq<(Seq<char>, Seq<char>)>, Fault>,
) -> bool {
    match (found, expected) {
        (Ok(flags), Ok(pairs)) => flags@ == pairs,
        (Err(FlagError::Expected(text)), Err(Fault::Expected(at))) => 0 <= at < args.len() && text@
            == args[at],
        (Err(FlagError::NeedsValue(name)), Err(Fault::NeedsValue(at))) => 0 <= at < args.len()
            && name@ == args[at].skip(2),
        _ => false,
    }
}

impl Flags {
    /// Parses `--name value` pairs, and switches alone as `on`.
    pub fn parse(args: &[String]) -> (flags: Result<Flags, FlagError>)
        ensures
            reads_as(flags, all_chars(args@), pairs_from(all_chars(args@), 0)),
    {
        let ghost words = all_chars(args@);
        let count: usize = args.len();
        let mut flags: Flags = Flags { values: Vec::new() };
        let mut index: usize = 0;
        proof {
            if let Ok(rest) = pairs_from(words, 0) {
                assert(flags@ + rest =~= rest);
            }
        }
        while index < count
            invariant
                index <= count,
                count == args@.len(),
                words == all_chars(args@),
                match pairs_from(words, index as int) {
                    Ok(rest) => pairs_from(words, 0) == Ok::<Seq<(Seq<char>, Seq<char>)>, Fault>(
                        flags@ + rest,
                    ),
                    Err(fault) => pairs_from(words, 0) == Err::<Seq<(Seq<char>, Seq<char>)>, Fault>(
                        fault,
                    ),
                },
            decreases count - index,
        {
            assert(words[index as int] == args@[index as int]@);
            let size: usize = args[index].as_str().unicode_len();
            if !looks_like_flag(args[index].as_str()) {
                return Err(FlagError::Expected(args[index].clone()));
            }
            let name: String = String::from_str(args[index].as_str().substring_char(2, size));
            assert(name@ =~= words[index as int].skip(2));
            let has_value: bool = index + 1 < count && !looks_like_flag(args[index + 1].as_str());
            let ghost before = flags@;
            if has_value {
                assert(words[index + 1] == args@[index + 1]@);
                flags.values.push((name, args[index + 1].clone()));
                proof {
                    assert(flags@ =~= before.push((name@, words[index + 1])));
                    if let Ok(rest) = pairs_from(words, index + 2) {
                        assert(before + (seq![(name@, words[index + 1])] + rest) =~= flags@ + rest);
                    }
                }
                index = index + 2;
            } else if text::same(name.as_str(), "explain") || text::same(name.as_str(), "monitor")
                || text::same(name.as_str(), "resize") {
                proof {
                    if index + 1 < count {
                        assert(words[index + 1] == args@[index + 1]@);
                    }
                }
                let ghost held = name@;
                flags.values.push((name, String::from_str("on")));
                proof {
                    assert(flags@ =~= before.push((held, "on"@)));
                    if let Ok(rest) = pairs_from(words, index + 1) {
                        assert(before + (seq![(held, "on"@)] + rest) =~= flags@ + rest);
                    }
                }
                index = index + 1;
            } else {
                proof {
                    if index + 1 < count {
                        assert(words[index + 1] == args@[index + 1]@);
                    }
                }
                return Err(FlagError::NeedsValue(name));
            }
        }
        assert(flags@ + Seq::empty() =~= flags@);
        Ok(flags)
    }

    /// The value of a flag.
    pub fn get(&self, name: &str) -> (value: Option<String>)
        ensures
            match value {
                Some(value) => value_for(self@, name@) == Some(value@),
                None => value_for(self@, name@) is None,
            },
    {
        let mut left: usize = self.values.len();
        assert(self@.take(left as int) =~= self@);
        while left > 0
            invariant
                left <= self.values@.len(),
                value_for(self@, name@) == value_for(self@.take(left as int), name@),
            decreases left,
        {
            let ghost part = self@.take(left as int);
            assert(part.last() == (self.values@[left - 1].0@, self.values@[left - 1].1@));
            assert(part.drop_last() =~= self@.take(left - 1));
            if text::same(self.values[left - 1].0.as_str(), name) {
                return Some(self.values[left - 1].1.clone());
            }
            left = left - 1;
        }
        None
    }

    /// The value of a flag, or a fallback.
    pub fn text(&self, name: &str, fallback: &str) -> (value: String)
        ensures
            value@ == (match value_for(self@, name@) {
                Some(value) => value,
                None => fallback@,
            }),
    {
        match self.get(name) {
            Some(value) => value,
            None => String::from_str(fallback),
        }
    }

    /// The value of a flag that there must be.
    pub fn required(&self, name: &str) -> (value: Result<String, String>)
        ensures
            match value {
                Ok(value) => value_for(self@, name@) == Some(value@),
                Err(message) => value_for(self@, name@) is None && message@ == "--"@ + name@
                    + " is required"@,
            },
    {
        match self.get(name) {
            Some(value) => Ok(value),
            None => {
                let mut message: String = String::from_str("--");
                message.append(name);
                message.append(" is required");
                Err(message)
            },
        }
    }

    /// Rejects a flag that the command does not know, rather than passing over
    /// a misspelling.
    pub fn reject_unknown(&self, known: &[&str]) -> (result: Result<(), String>)
        ensures
            match result {
                Ok(()) => forall|i: int|
                    0 <= i < self@.len() ==> is_among((#[trigger] self@[i]).0, known@),
                Err(message) => exists|i: int|
                    {
                        &&& 0 <= i < self@.len()
                        &&& !is_among((#[trigger] self@[i]).0, known@)
                        &&& message@ == "unknown flag --"@ + self@[i].0
                            + "; this command takes: "@ + listing(known@, known@.len() as int)
                    },
            },
    {
        let mut i: usize = 0;
        while i < self.values.len()
            invariant
                i <= self.values@.len(),
                forall|k: int| 0 <= k < i ==> is_among((#[trigger] self@[k]).0, known@),
            decreases self.values@.len() - i,
        {
            assert(self@[i as int].0 == self.values@[i as int].0@);
            if !is_known(self.values[i].0.as_str(), known) {
                let mut message: String = String::from_str("unknown flag --");
                message.append(self.values[i].0.as_str());
                message.append("; this command takes: ");
                let names: String = list_flags(known);
                message.append(names.as_str());
                assert(message@ == "unknown flag --"@ + self@[i as int].0
                    + "; this command takes: "@ + listing(known@, known@.len() as int));
                return Err(message);
            }
            i = i + 1;
        }
        Ok(())
    }
}

/// Whether a name is among names.
pub open spec fn is_among(name: Seq<char>, names: Seq<&str>) -> bool {
    exists|i: int| 0 <= i < names.len() && (#[trigger] names[i])@ == name
}

/// Flags in a row.
pub open spec fn listing(names: Seq<&str>, count: int) -> Seq<char>
    decreases count,
{
    if count <= 0 {
        Seq::empty()
    } else if count == 1 {
        "--"@ + names[0]@
    } else {
        listing(names, count - 1) + ", "@ + "--"@ + names[count - 1]@
    }
}

/// Whether a name is among names.
fn is_known(name: &str, names: &[&str]) -> (known: bool)
    ensures
        known == is_among(name@, names@),
{
    let mut i: usize = 0;
    while i < names.len()
        invariant
            i <= names@.len(),
            forall|k: int| 0 <= k < i ==> (#[trigger] names@[k])@ != name@,
        decreases names@.len() - i,
    {
        if text::same(names[i], name) {
            assert(names@[i as int]@ == name@);
            return true;
        }
        i = i + 1;
    }
    false
}

/// Flags in a row.
fn list_flags(names: &[&str]) -> (row: String)
    ensures
        row@ == listing(names@, names@.len() as int),
{
    let mut row: String = String::new();
    let mut i: usize = 0;
    while i < names.len()
        invariant
            i <= names@.len(),
            row@ == listing(names@, i as int),
        decreases names@.len() - i,
    {
        let ghost before = row@;
        if i > 0 {
            row.append(", ");
        }
        row.append("--");
        row.append(names[i]);
        assert(row@ =~= listing(names@, i + 1));
        i = i + 1;
    }
    row
}

/// The parts of a text between its slashes.
pub open spec fn parts(text: Seq<char>) -> Seq<Seq<char>>
    decreases text.len(),
{
    if text.len() == 0 {
        seq![Seq::empty()]
    } else {
        let before = parts(text.drop_last());
        if text.last() == '/' {
            before.push(Seq::empty())
        } else {
            before.update(before.len() - 1, before.last().push(text.last()))
        }
    }
}

/// Character vectors as sequences.
pub open spec fn all_seqs(texts: Seq<Vec<char>>) -> Seq<Seq<char>> {
    texts.map_values(|text: Vec<char>| text@)
}

/// The parts of a text between its slashes.
fn split_at_slashes(text: &Vec<char>) -> (pieces: Vec<Vec<char>>)
    ensures
        all_seqs(pieces@) == parts(text@),
{
    let mut done: Vec<Vec<char>> = Vec::new();
    let mut current: Vec<char> = Vec::new();
    let mut i: usize = 0;
    assert(text@.take(0) =~= Seq::empty());
    assert(all_seqs(done@).push(current@) =~= parts(text@.take(0)));
    while i < text.len()
        invariant
            i <= text@.len(),
            all_seqs(done@).push(current@) == parts(text@.take(i as int)),
        decreases text@.len() - i,
    {
        let c: char = text[i];
        let ghost before = all_seqs(done@);
        let ghost piece = current@;
        assert(text@.take(i + 1).drop_last() =~= text@.take(i as int));
        assert(text@.take(i + 1).last() == c);
        if c == '/' {
            done.push(current);
            current = Vec::new();
            assert(all_seqs(done@) =~= before.push(piece));
        } else {
            current.push(c);
            assert(before.push(piece).update(before.len() as int, piece.push(c)) =~= before.push(
                current@,
            ));
        }
        i = i + 1;
    }
    assert(text@.take(i as int) =~= text@);
    let ghost before = all_seqs(done@);
    let ghost piece = current@;
    done.push(current);
    assert(all_seqs(done@) =~= before.push(piece));
    done
}

/// Whether every character is a digit.
pub open spec fn all_digits(text: Seq<char>) -> bool {
    forall|i: int| 0 <= i < text.len() ==> '0' <= #[trigger] text[i] <= '9'
}

/// Whether every character is a digit.
fn only_digits(text: &Vec<char>) -> (digits: bool)
    ensures
        digits == all_digits(text@),
{
    let mut i: usize = 0;
    while i < text.len()
        invariant
            i <= text@.len(),
            forall|k: int| 0 <= k < i ==> '0' <= #[trigger] text@[k] <= '9',
        decreases text@.len() - i,
    {
        if text[i] < '0' || text[i] > '9' {
            return false;
        }
        i = i + 1;
    }
    true
}

/// A number as far as it can be counted.
pub open spec fn at_most(number: int, most: int) -> int {
    if number < most {
        number
    } else {
        most
    }
}

/// The place of the letter that an exponent follows, from a place on, or the
/// end of the text.
pub open spec fn exponent_mark(text: Seq<char>, from: int) -> int
    decreases text.len() - from,
{
    if from >= text.len() {
        text.len() as int
    } else if text[from] == 'e' || text[from] == 'E' {
        from
    } else {
        exponent_mark(text, from + 1)
    }
}

/// The exponent that a text names: digits, with or without a sign.
pub open spec fn exponent_of(text: Seq<char>) -> Option<int> {
    let signed = text.len() > 0 && (text[0] == '+' || text[0] == '-');
    let digits = if signed {
        text.skip(1)
    } else {
        text
    };
    if digits.len() > 0 && all_digits(digits) {
        Some(
            if signed && text[0] == '-' {
                -text::value_of(digits)
            } else {
                text::value_of(digits)
            },
        )
    } else {
        None
    }
}

/// Whether a text is a word for a depth without end, in letters of any case.
pub open spec fn is_endless(text: Seq<char>) -> bool {
    let lower = text.map_values(|c: char| text::lowered(c));
    lower == "inf"@ || lower == "infinity"@
}

/// The depth that digits name with a point among them and an exponent behind
/// them, where it is worth more than nothing.
pub open spec fn depth_written(mantissa: Seq<char>, exponent: int) -> Option<int> {
    let point = match text::found(mantissa, "."@, 0) {
        Some(at) => at,
        None => mantissa.len() as int,
    };
    let whole = mantissa.take(point);
    let fraction = if point < mantissa.len() {
        mantissa.skip(point + 1)
    } else {
        Seq::empty()
    };
    let depth = double::decimal(text::value_of(whole + fraction), exponent - fraction.len());
    if all_digits(whole) && all_digits(fraction) && depth > 0 {
        Some(depth)
    } else {
        None
    }
}

/// The depth that a text names, as the pattern of the nearest number in double
/// precision: digits, with or without a plus sign before them, a point among
/// them and an exponent behind them, or a word for a depth without end. Nothing
/// is no depth, nor is what is too small for double precision.
pub open spec fn depth_of(text: Seq<char>) -> Option<int> {
    let body = if text.len() > 0 && text[0] == '+' {
        text.skip(1)
    } else {
        text
    };
    let mark = exponent_mark(body, 0);
    if is_endless(body) {
        Some(double::ENDLESS as int)
    } else if mark == body.len() {
        depth_written(body, 0)
    } else {
        match exponent_of(body.skip(mark + 1)) {
            Some(exponent) => depth_written(body.take(mark), exponent),
            None => None,
        }
    }
}

/// A part of a text.
fn piece_of(text: &Vec<char>, from: usize, to: usize) -> (piece: Vec<char>)
    requires
        from <= to <= text@.len(),
    ensures
        piece@ == text@.subrange(from as int, to as int),
{
    let mut piece: Vec<char> = Vec::new();
    let mut i: usize = from;
    while i < to
        invariant
            from <= i <= to <= text@.len(),
            piece@ == text@.subrange(from as int, i as int),
        decreases to - i,
    {
        piece.push(text[i]);
        assert(piece@ =~= text@.subrange(from as int, i + 1));
        i = i + 1;
    }
    piece
}

/// More than any exponent that matters.
const FAR: u128 = 0x10_0000_0000_0000_0000_0000_0000;

/// The value of digits, as far as it can be counted up to [`FAR`].
fn bounded_value(text: &Vec<char>) -> (value: u128)
    requires
        all_digits(text@),
    ensures
        value == at_most(text::value_of(text@), FAR as int),
        text::value_of(text@) >= 0,
{
    let mut value: u128 = 0;
    let mut i: usize = 0;
    assert(text@.take(0) =~= Seq::empty());
    while i < text.len()
        invariant
            i <= text@.len(),
            all_digits(text@),
            text::value_of(text@.take(i as int)) >= 0,
            value == at_most(text::value_of(text@.take(i as int)), FAR as int),
        decreases text@.len() - i,
    {
        let c: char = text[i];
        let digit: u128 = (c as u32 - 48) as u128;
        let ghost (shorter, longer) = (text@.take(i as int), text@.take(i + 1));
        assert(longer.drop_last() =~= shorter);
        assert(text::value_of(longer) == 10 * text::value_of(shorter) + digit);
        let next: u128 = 10 * value + digit;
        value = if next < FAR {
            next
        } else {
            FAR
        };
        i = i + 1;
    }
    assert(text@.take(i as int) =~= text@);
    value
}

/// Digits stand for less than the power of ten with as many zeros.
proof fn lemma_value_bound(digits: Seq<char>)
    requires
        all_digits(digits),
    ensures
        0 <= text::value_of(digits) < double::pow10(digits.len() as int),
    decreases digits.len(),
{
    if digits.len() > 0 {
        let shorter = digits.drop_last();
        assert forall|i: int| 0 <= i < shorter.len() implies '0' <= #[trigger] shorter[i] <= '9' by {
            assert(shorter[i] == digits[i]);
        }
        lemma_value_bound(shorter);
        assert('0' <= digits[digits.len() - 1] <= '9');
    }
}

/// The number that digits stand for.
fn number_of_digits(digits: &Vec<char>) -> (number: Natural)
    requires
        all_digits(digits@),
    ensures
        number@ == text::value_of(digits@),
{
    let mut number: Natural = Natural::zero();
    let mut i: usize = 0;
    assert(digits@.take(0) =~= Seq::empty());
    while i < digits.len()
        invariant
            i <= digits@.len(),
            all_digits(digits@),
            number@ == text::value_of(digits@.take(i as int)),
        decreases digits@.len() - i,
    {
        let digit: u64 = (digits[i] as u32 - 48) as u64;
        proof {
            let (shorter, longer) = (digits@.take(i as int), digits@.take(i + 1));
            assert(longer.drop_last() =~= shorter);
            assert(longer.last() == digits@[i as int]);
        }
        number = number.times_plus(10, digit);
        i = i + 1;
    }
    assert(digits@.take(i as int) =~= digits@);
    number
}

/// The place of the letter that an exponent follows, or the end of the text.
fn find_exponent(text: &Vec<char>) -> (mark: usize)
    ensures
        mark == exponent_mark(text@, 0),
        mark <= text@.len(),
{
    let mut i: usize = 0;
    while i < text.len()
        invariant
            i <= text@.len(),
            exponent_mark(text@, 0) == exponent_mark(text@, i as int),
        decreases text@.len() - i,
    {
        if text[i] == 'e' || text[i] == 'E' {
            return i;
        }
        i = i + 1;
    }
    i
}

/// The exponent that a text names, as far as it matters.
fn parse_exponent(text: &Vec<char>) -> (exponent: Option<i128>)
    ensures
        match exponent {
            Some(exponent) => {
                &&& exponent_of(text@) is Some
                &&& -FAR <= exponent <= FAR
                &&& exponent == exponent_of(text@)->0 || (exponent == FAR && exponent_of(text@)->0 > FAR) || (
                exponent == -FAR && exponent_of(text@)->0 < -FAR)
            },
            None => exponent_of(text@) is None,
        },
{
    let size: usize = text.len();
    let signed: bool = size > 0 && (text[0] == '+' || text[0] == '-');
    let start: usize = if signed {
        1
    } else {
        0
    };
    let digits: Vec<char> = piece_of(text, start, size);
    proof {
        if signed {
            assert(digits@ =~= text@.skip(1));
        } else {
            assert(digits@ =~= text@);
        }
    }
    if digits.len() == 0 || !only_digits(&digits) {
        return None;
    }
    let value: i128 = bounded_value(&digits) as i128;
    if signed && text[0] == '-' {
        Some(-value)
    } else {
        Some(value)
    }
}

/// Whether a text is a word in letters of any case.
fn is_word(text: &Vec<char>, word: &Vec<char>) -> (is: bool)
    ensures
        is == (text@.map_values(|c: char| text::lowered(c)) == word@),
{
    let ghost lower = text@.map_values(|c: char| text::lowered(c));
    if text.len() != word.len() {
        return false;
    }
    let mut i: usize = 0;
    while i < text.len()
        invariant
            i <= text@.len() == word@.len(),
            lower == text@.map_values(|c: char| text::lowered(c)),
            forall|k: int| 0 <= k < i ==> #[trigger] lower[k] == word@[k],
        decreases text@.len() - i,
    {
        let c: char = text[i];
        let small: char = if 'A' <= c && c <= 'Z' {
            (c as u8 + 32) as char
        } else {
            c
        };
        assert(small == text::lowered(c));
        assert(lower[i as int] == small);
        if small != word[i] {
            return false;
        }
        i = i + 1;
    }
    assert(lower =~= word@);
    true
}

/// The depth that digits name with a point among them and an exponent behind
/// them.
fn parse_written(mantissa: &Vec<char>, exponent: i128) -> (depth: Option<u64>)
    requires
        -FAR <= exponent <= FAR,
    ensures
        match depth {
            Some(depth) => depth_written(mantissa@, exponent as int) == Some(depth as int) && depth <= double::ENDLESS,
            None => depth_written(mantissa@, exponent as int) is None,
        },
        exponent == FAR ==> forall|more: int|
            more > FAR ==> #[trigger] depth_written(mantissa@, more) == depth_written(mantissa@, FAR as int),
        exponent == -FAR ==> forall|less: int|
            less < -FAR ==> #[trigger] depth_written(mantissa@, less) == depth_written(mantissa@, -FAR),
{
    proof {
        reveal_strlit(".");
    }
    let length: usize = mantissa.len();
    let point: usize = match text::find(mantissa, &card::chars_of(".")) {
        Some(at) => at,
        None => length,
    };
    let whole: Vec<char> = piece_of(mantissa, 0, point);
    assert(whole@ =~= mantissa@.take(point as int));
    let fraction: Vec<char> = if point < length {
        piece_of(mantissa, point + 1, length)
    } else {
        Vec::new()
    };
    assert(fraction@ =~= if point < mantissa@.len() {
        mantissa@.skip(point + 1)
    } else {
        Seq::empty()
    });
    if !only_digits(&whole) || !only_digits(&fraction) {
        return None;
    }
    let ghost both = whole@ + fraction@;
    let mut digits: Vec<char> = whole;
    let mut i: usize = 0;
    assert(fraction@.take(0) =~= Seq::empty());
    assert(digits@ =~= whole@ + fraction@.take(0));
    while i < fraction.len()
        invariant
            i <= fraction@.len(),
            digits@ == whole@ + fraction@.take(i as int),
        decreases fraction@.len() - i,
    {
        digits.push(fraction[i]);
        assert(digits@ =~= whole@ + fraction@.take(i + 1));
        i = i + 1;
    }
    assert(fraction@.take(i as int) =~= fraction@);
    assert(digits@ == both);
    proof {
        assert forall|k: int| 0 <= k < both.len() implies '0' <= #[trigger] both[k] <= '9' by {
            if k < whole@.len() {
                assert(both[k] == whole@[k]);
            } else {
                assert(both[k] == fraction@[k - whole@.len()]);
            }
        }
        lemma_value_bound(both);
        let n = text::value_of(both);
        let behind = fraction@.len() as int;
        if exponent == FAR {
            assert forall|more: int| more > FAR implies #[trigger] depth_written(mantissa@, more) == depth_written(
                mantissa@,
                FAR as int,
            ) by {
                if n > 0 {
                    double::lemma_too_large(n, more - behind);
                    double::lemma_too_large(n, FAR - behind);
                } else {
                    double::lemma_nothing(more - behind);
                    double::lemma_nothing(FAR - behind);
                }
            }
        }
        if exponent == -FAR {
            assert forall|less: int| less < -FAR implies #[trigger] depth_written(mantissa@, less) == depth_written(
                mantissa@,
                -FAR,
            ) by {
                double::lemma_too_small(n, both.len() as int, less - behind);
                double::lemma_too_small(n, both.len() as int, -FAR - behind);
            }
        }
    }
    let number: Natural = number_of_digits(&digits);
    let depth: u64 = double::decimal_of(number, digits.len(), exponent - fraction.len() as i128);
    if depth > 0 {
        Some(depth)
    } else {
        None
    }
}

/// The depth that a text names.
fn parse_depth(text: &Vec<char>) -> (depth: Option<u64>)
    ensures
        match depth {
            Some(depth) => depth_of(text@) == Some(depth as int) && 0 < depth <= double::ENDLESS,
            None => depth_of(text@) is None,
        },
{
    let size: usize = text.len();
    let start: usize = if size > 0 && text[0] == '+' {
        1
    } else {
        0
    };
    let body: Vec<char> = piece_of(text, start, size);
    proof {
        if start == 1 {
            assert(body@ =~= text@.skip(1));
        } else {
            assert(body@ =~= text@);
        }
    }
    if is_word(&body, &card::chars_of("inf")) || is_word(&body, &card::chars_of("infinity")) {
        return Some(double::ENDLESS);
    }
    let length: usize = body.len();
    let mark: usize = find_exponent(&body);
    if mark == length {
        return parse_written(&body, 0);
    }
    let tail: Vec<char> = piece_of(&body, mark + 1, length);
    assert(tail@ =~= body@.skip(mark + 1));
    let mantissa: Vec<char> = piece_of(&body, 0, mark);
    assert(mantissa@ =~= body@.take(mark as int));
    match parse_exponent(&tail) {
        Some(exponent) => parse_written(&mantissa, exponent),
        None => None,
    }
}

/// The stack behind a pot of a hundred at a depth, to the nearest chip and as far
/// as it can be counted.
pub fn rung_stack(depth: u64) -> (stack: u32)
    requires
        depth <= double::ENDLESS,
    ensures
        stack == at_most(double::rounded(double::product(depth as int, 100)), u32::MAX as int),
{
    double::whole_of(double::product_of(depth, 100), u32::MAX as u64) as u32
}

/// What the label of a postflop solve says: the depth it was solved at, and the
/// number of strength groups.
pub open spec fn rung_named(label: Seq<char>) -> Option<(int, int)> {
    let pieces = parts(label);
    if pieces.len() >= 3 && pieces[0] == "postflop"@ && starts(pieces[1], "spr"@) && starts(
        pieces[2],
        "b"@,
    ) {
        match (depth_of(pieces[1].skip(3)), text::number_of(pieces[2].skip(1))) {
            (Some(depth), Some(buckets)) => if buckets >= 2 {
                Some((depth, buckets))
            } else {
                None
            },
            _ => None,
        }
    } else {
        None
    }
}

/// Reads the depth and the number of strength groups out of a postflop label,
/// which looks like `postflop/spr4/b48`. Anything else is no postflop
/// blueprint.
pub fn postflop_label(label: &str) -> (rung: Option<(u64, usize)>)
    ensures
        match rung {
            Some((depth, buckets)) => rung_named(label@) == Some((depth as int, buckets as int)) && 0 < depth
                <= double::ENDLESS,
            None => rung_named(label@) is None,
        },
{
    let pieces: Vec<Vec<char>> = split_at_slashes(&card::chars_of(label));
    let ghost model = parts(label@);
    assert(model.len() == pieces@.len());
    if pieces.len() < 3 {
        return None;
    }
    assert(model[0] == pieces@[0]@ && model[1] == pieces@[1]@ && model[2] == pieces@[2]@);
    proof {
        reveal_strlit("postflop");
        reveal_strlit("spr");
        reveal_strlit("b");
    }
    if pieces[0].len() != 8 || !text::stands_at(&pieces[0], &card::chars_of("postflop"), 0) {
        assert(model[0] != "postflop"@) by {
            if model[0] == "postflop"@ {
                assert(model[0].subrange(0, 8) =~= model[0]);
            }
        }
        return None;
    }
    assert(model[0].subrange(0, 8) =~= model[0]);
    if !text::stands_at(&pieces[1], &card::chars_of("spr"), 0) || !text::stands_at(
        &pieces[2],
        &card::chars_of("b"),
        0,
    ) {
        return None;
    }
    let named: usize = pieces[1].len();
    let depth: Vec<char> = piece_of(&pieces[1], 3, named);
    assert(depth@ =~= model[1].skip(3));
    match (parse_depth(&depth), text::parse_number(&pieces[2], 1)) {
        (Some(depth), Some(buckets)) => {
            if buckets >= 2 {
                Some((depth, buckets))
            } else {
                None
            }
        },
        _ => None,
    }
}

/// Depths in a row.
pub open spec fn depth_list(depths: Seq<String>, count: int) -> Seq<char>
    decreases count,
{
    if count <= 0 {
        Seq::empty()
    } else if count == 1 {
        depths[0]@
    } else {
        depth_list(depths, count - 1) + "/"@ + depths[count - 1]@
    }
}

/// A line describing what postflop coverage an agent has, from the depths that
/// are solved, each as it is written.
pub fn postflop_summary(depths: &Vec<String>) -> (summary: String)
    ensures
        summary@ == (if depths@.len() == 0 {
            "postflop: none solved - the heuristic plays every flop"@
        } else {
            "postflop: heads-up at "@ + depth_list(depths@, depths@.len() as int)
                + " times the pot; multiway uses the heuristic"@
        }),
{
    if depths.len() == 0 {
        return String::from_str("postflop: none solved - the heuristic plays every flop");
    }
    let mut list: String = String::new();
    let mut i: usize = 0;
    while i < depths.len()
        invariant
            i <= depths@.len(),
            list@ == depth_list(depths@, i as int),
        decreases depths@.len() - i,
    {
        if i > 0 {
            list.append("/");
        }
        list.append(depths[i].as_str());
        assert(list@ =~= depth_list(depths@, i + 1));
        i = i + 1;
    }
    let mut summary: String = String::from_str("postflop: heads-up at ");
    summary.append(list.as_str());
    summary.append(" times the pot; multiway uses the heuristic");
    summary
}

/// An amount in big blinds with two decimals: the chips over the big blind, in
/// double precision.
pub open spec fn blinds_words(chips: int, big_blind: int) -> Seq<char> {
    if big_blind > 0 {
        text::hundredths(double::in_parts(double::ratio(chips, big_blind), 100))
    } else if chips > 0 {
        "inf"@
    } else {
        "NaN"@
    }
}

/// An amount in big blinds with two decimals.
fn blinds_text(chips: u64, big_blind: u64) -> (words: String)
    ensures
        words@ == blinds_words(chips as int, big_blind as int),
{
    if big_blind == 0 {
        return String::from_str(
            if chips > 0 {
                "inf"
            } else {
                "NaN"
            },
        );
    }
    let ratio: u64 = double::ratio_of(chips, big_blind);
    proof {
        double::lemma_ratio_bound(chips as int, big_blind as int);
    }
    text::with_hundredths(double::parts_of(ratio, 100))
}

/// The words for an action against a bet of `to_call`.
pub open spec fn described(action: Action, to_call: u64, big_blind: u64) -> Seq<char> {
    match action {
        Action::Fold => "folds"@,
        Action::Check => "checks"@,
        Action::Call => "calls "@ + blinds_words(to_call as int, big_blind as int) + " bb"@,
        Action::RaiseTo(amount) => if to_call == 0 {
            "bets to "@ + blinds_words(amount as int, big_blind as int) + " bb"@
        } else {
            "raises to "@ + blinds_words(amount as int, big_blind as int) + " bb"@
        },
    }
}

/// The words for an action against a bet of `to_call`.
pub fn describe(action: &Action, to_call: u64, big_blind: u64) -> (words: String)
    ensures
        words@ == described(*action, to_call, big_blind),
{
    let (start, amount) = match action {
        Action::Fold => {
            return String::from_str("folds");
        },
        Action::Check => {
            return String::from_str("checks");
        },
        Action::Call => ("calls ", to_call),
        Action::RaiseTo(amount) => (
            if to_call == 0 {
                "bets to "
            } else {
                "raises to "
            },
            *amount,
        ),
    };
    let mut words: String = String::from_str(start);
    let blinds: String = blinds_text(amount, big_blind);
    words.append(blinds.as_str());
    words.append(" bb");
    words
}

/// The class that stands in a cell of the grid of starting hands: aces in the
/// first row and column, pairs down the middle, suited hands above them.
pub fn grid_class(row: usize, column: usize) -> (class: HandClass)
    requires
        row < 13,
        column < 13,
    ensures
        class@.high == 12 - (if row < column {
            row
        } else {
            column
        }),
        class@.low == 12 - (if row < column {
            column
        } else {
            row
        }),
        class@.suited == (row < column),
        class@.sound(),
{
    let (first, second) = if row < column {
        (row, column)
    } else {
        (column, row)
    };
    let high: u8 = (12 - first) as u8;
    let low: u8 = (12 - second) as u8;
    match (Rank::from_index(high), Rank::from_index(low)) {
        (Some(high), Some(low)) => HandClass::new(high, low, row < column),
        _ => HandClass::new(Rank::Two, Rank::Two, false),
    }
}

/// The number of strength groups to measure a table of a size with: as asked,
/// or full precision while it is affordable and as fine as the size allows.
pub fn table_buckets(asked: usize, players: usize) -> (buckets: usize)
    ensures
        buckets == (if asked > 0 {
            asked
        } else if players <= 4 {
            169
        } else if players == 5 {
            40
        } else if players == 6 {
            30
        } else {
            25
        }),
{
    if asked > 0 {
        return asked;
    }
    match players {
        0..=4 => 169,
        5 => 40,
        6 => 30,
        _ => 25,
    }
}

/// Whether a window has the shape of a table: wider than it is tall.
pub open spec fn is_landscape(size: (usize, usize)) -> bool {
    size.0 > size.1
}

/// The area of a window.
pub open spec fn area(size: (usize, usize)) -> int {
    size.0 * size.1
}

/// Picks the table out of the sizes of a client's windows: the largest that is
/// wider than tall, and the first of equals. A lobby is taller than wide, so
/// the largest window of all may well be no table.
pub fn pick_table(sizes: &[(usize, usize)]) -> (table: Option<usize>)
    ensures
        match table {
            Some(table) => {
                &&& table < sizes@.len()
                &&& is_landscape(sizes@[table as int])
                &&& forall|i: int|
                    0 <= i < sizes@.len() && is_landscape(#[trigger] sizes@[i]) ==> if i < table {
                        area(sizes@[i]) < area(sizes@[table as int])
                    } else {
                        area(sizes@[i]) <= area(sizes@[table as int])
                    }
            },
            None => forall|i: int|
                0 <= i < sizes@.len() ==> !is_landscape(#[trigger] sizes@[i]),
        },
{
    let mut best: Option<usize> = None;
    let mut largest: u128 = 0;
    let mut i: usize = 0;
    while i < sizes.len()
        invariant
            i <= sizes@.len(),
            match best {
                Some(best) => {
                    &&& best < i
                    &&& is_landscape(sizes@[best as int])
                    &&& largest == area(sizes@[best as int])
                    &&& forall|k: int|
                        0 <= k < i && is_landscape(#[trigger] sizes@[k]) ==> if k < best {
                            area(sizes@[k]) < area(sizes@[best as int])
                        } else {
                            area(sizes@[k]) <= area(sizes@[best as int])
                        }
                },
                None => forall|k: int| 0 <= k < i ==> !is_landscape(#[trigger] sizes@[k]),
            },
        decreases sizes@.len() - i,
    {
        let (width, height) = sizes[i];
        if width > height {
            assert(width * height <= usize::MAX * usize::MAX) by (nonlinear_arith)
                requires
                    0 <= width <= usize::MAX,
                    0 <= height <= usize::MAX,
            ;
            assert(usize::MAX * usize::MAX <= u128::MAX) by (nonlinear_arith)
                requires
                    0 <= usize::MAX <= 0xffff_ffff_ffff_ffff,
            ;
            let here: u128 = width as u128 * height as u128;
            if best.is_none() || here > largest {
                best = Some(i);
                largest = here;
            }
        }
        i = i + 1;
    }
    best
}

/// A band of strengths when `buckets` are shown in rows of `width`.
pub open spec fn band(buckets: int, width: int, row: int) -> (int, int) {
    (
        row * width,
        if (row + 1) * width < buckets {
            (row + 1) * width
        } else {
            buckets
        },
    )
}

/// How many strengths a row holds, so that every strength is in some row.
pub open spec fn band_width(buckets: int, rows: int) -> int {
    (buckets + rows - 1) / rows
}

/// The bands that strengths are shown in: at most `rows` of them, each from
/// its first strength up to but without its last.
pub fn bands(buckets: usize, rows: usize) -> (bands: Vec<(usize, usize)>)
    requires
        rows > 0,
        buckets + rows <= usize::MAX,
    ensures
        bands@.len() <= rows,
        forall|k: int|
            0 <= k < bands@.len() ==> {
                let (first, last) = #[trigger] bands@[k];
                &&& (first as int, last as int) == band(
                    buckets as int,
                    band_width(buckets as int, rows as int),
                    k,
                )
                &&& first < last
            },
        bands@.len() < rows ==> bands@.len() * band_width(buckets as int, rows as int)
            >= buckets,
{
    let width: usize = (buckets + rows - 1) / rows;
    assert(width <= buckets && (buckets > 0 ==> width > 0)) by (nonlinear_arith)
        requires
            rows > 0,
            width == (buckets + rows - 1) / rows as int,
    ;
    let mut bands: Vec<(usize, usize)> = Vec::new();
    let mut first: usize = 0;
    while bands.len() < rows && first < buckets
        invariant
            rows > 0,
            buckets + rows <= usize::MAX,
            width == band_width(buckets as int, rows as int),
            width <= buckets,
            buckets > 0 ==> width > 0,
            first <= buckets,
            bands@.len() <= rows,
            first < buckets ==> first == bands@.len() * width,
            first == buckets ==> bands@.len() * width >= buckets,
            forall|k: int|
                0 <= k < bands@.len() ==> {
                    let (first, last) = #[trigger] bands@[k];
                    &&& (first as int, last as int) == band(buckets as int, width as int, k)
                    &&& first < last
                },
        decreases rows - bands@.len(),
    {
        let ghost row = bands@.len() as int;
        assert((row + 1) * width == row * width + width) by (nonlinear_arith);
        let last: usize = if width < buckets - first {
            first + width
        } else {
            buckets
        };
        bands.push((first, last));
        first = last;
    }
    bands
}

/// The rows of a chart show every strength once.
pub proof fn law_every_strength_is_in_one_band(buckets: int, rows: int, strength: int)
    requires
        rows > 0,
        0 <= strength < buckets,
    ensures
        ({
            let width = band_width(buckets, rows);
            let row = strength / width;
            &&& width > 0
            &&& 0 <= row < rows
            &&& band(buckets, width, row).0 <= strength < band(buckets, width, row).1
            &&& forall|k: int|
                0 <= k < rows && (#[trigger] band(buckets, width, k)).0 <= strength && strength
                    < band(buckets, width, k).1 ==> k == row
        }),
{
    let width = band_width(buckets, rows);
    let row = strength / width;
    assert(width > 0 && rows * width >= buckets) by (nonlinear_arith)
        requires
            rows > 0,
            buckets > 0,
            width == (buckets + rows - 1) / rows,
    ;
    assert(row * width <= strength < (row + 1) * width) by (nonlinear_arith)
        requires
            width > 0,
            row == strength / width,
    ;
    assert(0 <= row < rows) by (nonlinear_arith)
        requires
            width > 0,
            0 <= strength < buckets,
            buckets <= rows * width,
            row * width <= strength < (row + 1) * width,
    ;
    assert forall|k: int|
        0 <= k < rows && (#[trigger] band(buckets, width, k)).0 <= strength && strength < band(
            buckets,
            width,
            k,
        ).1 implies k == row by {
        assert(k == row) by (nonlinear_arith)
            requires
                width > 0,
                k * width <= strength < (k + 1) * width,
                row * width <= strength < (row + 1) * width,
        ;
    }
}

/// How two blueprints overlap.
#[derive(Debug, Clone, Copy, PartialEq, Eq, Structural)]
pub struct Overlap {
    /// Information sets that both have.
    pub shared: usize,
    /// Those of the first alone.
    pub only_left: usize,
    /// Those of the second alone.
    pub only_right: usize,
}

/// The information sets that two blueprints both have.
pub open spec fn in_both(left: blueprint::Stored, right: blueprint::Stored) -> Set<u64> {
    left.keys.to_set().intersect(right.keys.to_set())
}

/// The information sets among the first of one blueprint that another has too.
pub open spec fn in_both_before(
    left: blueprint::Stored,
    right: blueprint::Stored,
    count: int,
) -> Set<u64> {
    left.keys.take(count).to_set().intersect(right.keys.to_set())
}

/// Whether two blueprints offer different numbers of actions somewhere.
pub open spec fn differ_at(left: blueprint::Stored, right: blueprint::Stored, key: u64) -> bool {
    &&& left.strategies().contains_key(key)
    &&& right.strategies().contains_key(key)
    &&& left.strategies()[key].len() != right.strategies()[key].len()
}

/// One more key is one more that both have, if the other has it.
proof fn lemma_one_more_key(left: blueprint::Stored, right: blueprint::Stored, index: int)
    requires
        0 <= index < left.keys.len(),
    ensures
        in_both_before(left, right, index + 1) == (if right.keys.contains(left.keys[index]) {
            in_both_before(left, right, index).insert(left.keys[index])
        } else {
            in_both_before(left, right, index)
        }),
{
    let key = left.keys[index];
    let before = left.keys.take(index);
    let after = left.keys.take(index + 1);
    assert forall|x: u64| #[trigger] after.contains(x) <==> before.contains(x) || x == key by {
        assert(after[index] == key);
        if after.contains(x) {
            let k = choose|k: int| 0 <= k < after.len() && after[k] == x;
            if k < index {
                assert(before[k] == x);
            }
        }
        if before.contains(x) {
            let k = choose|k: int| 0 <= k < before.len() && before[k] == x;
            assert(after[k] == x);
        }
    }
    assert(in_both_before(left, right, index + 1) =~= if right.keys.contains(key) {
        in_both_before(left, right, index).insert(key)
    } else {
        in_both_before(left, right, index)
    });
}

/// Counts what two blueprints share. Where they offer different numbers of
/// actions they are not of one game, and the first such key comes back.
pub fn overlap(left: &Blueprint, right: &Blueprint) -> (result: Result<Overlap, u64>)
    ensures
        match result {
            Ok(overlap) => {
                &&& forall|key: u64| !#[trigger] differ_at(left@, right@, key)
                &&& overlap.shared == in_both(left@, right@).len()
                &&& overlap.only_left == left@.keys.len() - overlap.shared
                &&& overlap.only_right == right@.keys.len() - overlap.shared
            },
            Err(key) => differ_at(left@, right@, key) && forall|other: u64|
                #[trigger] differ_at(left@, right@, other) ==> key <= other,
        },
{
    let entries: Vec<(u64, Vec<u32>)> = left.entries();
    let total: usize = right.len();
    let mut shared: usize = 0;
    let mut i: usize = 0;
    proof {
        assert(in_both_before(left@, right@, 0) =~= Set::empty());
    }
    while i < entries.len()
        invariant
            i <= entries@.len(),
            left@.sound(),
            right@.sound(),
            entries@.len() == left@.keys.len(),
            forall|k: int|
                0 <= k < entries@.len() ==> (#[trigger] entries@[k]).0 == left@.keys[k]
                    && entries@[k].1@ == left@.at(k),
            shared <= i,
            shared == in_both_before(left@, right@, i as int).len(),
            in_both_before(left@, right@, i as int).finite(),
            forall|k: int|
                0 <= k < i ==> !differ_at(left@, right@, #[trigger] left@.keys[k]),
        decreases entries@.len() - i,
    {
        let key: u64 = entries[i].0;
        let ghost before = in_both_before(left@, right@, i as int);
        proof {
            blueprint::lemma_at(left@, i as int);
            lemma_one_more_key(left@, right@, i as int);
            assert(!before.contains(key));
        }
        match right.strategy(key) {
            Some(there) => {
                if entries[i].1.len() != there.len() {
                    proof {
                        assert forall|other: u64| #[trigger] differ_at(left@, right@, other)
                            implies key <= other by {
                            let k = left@.keys.index_of(other);
                            assert(left@.keys[k] == other);
                        }
                    }
                    return Err(key);
                }
                shared = shared + 1;
            },
            None => {},
        }
        i = i + 1;
    }
    proof {
        assert(left@.keys.take(i as int) =~= left@.keys);
        assert(in_both_before(left@, right@, i as int) =~= in_both(left@, right@));
        let keys = right@.keys;
        assert(keys.no_duplicates());
        keys.unique_seq_to_set();
        vstd::set_lib::lemma_len_subset(in_both(left@, right@), keys.to_set());
        assert forall|key: u64| !#[trigger] differ_at(left@, right@, key) by {
            if left@.keys.contains(key) {
                let k = left@.keys.index_of(key);
                assert(left@.keys[k] == key);
            }
        }
    }
    Ok(Overlap { shared, only_left: entries.len() - shared, only_right: total - shared })
}

/// The label of a solve: the game, and how deep it was solved.
pub open spec fn game_label(kind: Kind, stack: Seq<char>) -> Seq<char> {
    kind.words() + "/"@ + stack + "bb"@
}

/// The label of a solve of a game at a depth in big blinds.
pub fn label_for(kind: Kind, stack: &str) -> (label: String)
    ensures
        label@ == game_label(kind, stack@),
{
    let mut label: String = String::from_str(kind.name());
    label.append("/");
    label.append(stack);
    label.append("bb");
    label
}

/// The label of a postflop solve.
pub open spec fn rung_label(depth: Seq<char>, buckets: int) -> Seq<char> {
    "postflop/spr"@ + depth + "/b"@ + text::digits(buckets)
}

/// The label of a postflop solve at a depth, as it is written, with so many
/// strength groups. It carries everything that a bot has to match.
pub fn postflop_label_for(depth: &str, buckets: usize) -> (label: String)
    ensures
        label@ == rung_label(depth@, buckets as int),
{
    let mut label: String = String::from_str("postflop/spr");
    label.append(depth);
    label.append("/b");
    let groups: String = text::decimal(buckets as u64);
    label.append(groups.as_str());
    label
}

/// Whether a character does not occur.
pub open spec fn free_of(text: Seq<char>, mark: char) -> bool {
    forall|i: int| 0 <= i < text.len() ==> #[trigger] text[i] != mark
}

/// A mark is found behind a text that is free of it.
proof fn lemma_found_behind(before: Seq<char>, mark: Seq<char>, rest: Seq<char>, from: int)
    requires
        mark.len() == 1,
        free_of(before, mark[0]),
        0 <= from <= before.len(),
    ensures
        text::found(before + mark + rest, mark, from) == Some(before.len() as int),
    decreases before.len() - from,
{
    let whole = before + mark + rest;
    if from == before.len() {
        assert(whole.subrange(from, from + 1) =~= mark);
    } else {
        assert(whole.subrange(from, from + 1)[0] == before[from]);
        lemma_found_behind(before, mark, rest, from + 1);
    }
}

/// A mark is not found in a text that is free of it.
proof fn lemma_not_found(text: Seq<char>, mark: Seq<char>, from: int)
    requires
        mark.len() == 1,
        free_of(text, mark[0]),
        0 <= from,
    ensures
        text::found(text, mark, from) is None,
    decreases text.len() + 1 - from,
{
    if from + 1 <= text.len() {
        assert(text.subrange(from, from + 1)[0] == text[from]);
        lemma_not_found(text, mark, from + 1);
    }
}

/// The label of a game names the game.
pub proof fn law_labels_name_their_game(kind: Kind, stack: Seq<char>)
    requires
        kind matches Kind::Ring(seats) ==> 3 <= seats <= MOST_SEATS,
    ensures
        kind_named(first_part(game_label(kind, stack))) == Ok::<Kind, KindError>(kind),
{
    reveal_strlit("pushfold");
    reveal_strlit("preflop");
    reveal_strlit("ring3");
    reveal_strlit("ring4");
    reveal_strlit("ring5");
    reveal_strlit("ring6");
    reveal_strlit("ring7");
    reveal_strlit("/");
    let name = kind.words();
    let label = game_label(kind, stack);
    assert(label =~= name + "/"@ + (stack + "bb"@));
    lemma_found_behind(name, "/"@, stack + "bb"@, 0);
    assert(label.take(name.len() as int) =~= name);
    law_games_keep_their_names(kind);
}

/// A text has at least one part.
proof fn lemma_some_part(text: Seq<char>)
    ensures
        parts(text).len() >= 1,
    decreases text.len(),
{
    if text.len() > 0 {
        lemma_some_part(text.drop_last());
    }
}

/// A text without a slash goes on with the last part.
proof fn lemma_longer_part(text: Seq<char>, more: Seq<char>)
    requires
        free_of(more, '/'),
    ensures
        parts(text + more) == parts(text).update(
            parts(text).len() - 1,
            parts(text).last() + more,
        ),
        parts(text).len() >= 1,
    decreases more.len(),
{
    lemma_some_part(text);
    let before = parts(text);
    if more.len() == 0 {
        assert(text + more =~= text);
        assert(before.last() + more =~= before.last());
        assert(before.update(before.len() - 1, before.last()) =~= before);
    } else {
        let shorter = more.drop_last();
        assert forall|i: int| 0 <= i < shorter.len() implies #[trigger] shorter[i] != '/' by {
            assert(shorter[i] == more[i]);
        }
        lemma_longer_part(text, shorter);
        assert((text + more).drop_last() =~= text + shorter);
        assert((text + more).last() == more.last());
        assert(more.last() == more[more.len() - 1]);
        let middle = before.update(before.len() - 1, before.last() + shorter);
        assert((before.last() + shorter).push(more.last()) =~= before.last() + more);
        assert(middle.update(middle.len() - 1, middle.last().push(more.last())) =~= before.update(
            before.len() - 1,
            before.last() + more,
        ));
    }
}

/// A slash begins a part.
proof fn lemma_next_part(text: Seq<char>)
    ensures
        parts(text.push('/')) == parts(text).push(Seq::empty()),
{
    assert(text.push('/').drop_last() =~= text);
}

/// Three texts without slashes, with slashes between them, are three parts.
proof fn lemma_three_parts(a: Seq<char>, b: Seq<char>, c: Seq<char>)
    requires
        free_of(a, '/'),
        free_of(b, '/'),
        free_of(c, '/'),
    ensures
        parts(a.push('/') + b.push('/') + c) == seq![a, b, c],
{
    let none = Seq::<char>::empty();
    lemma_longer_part(none, a);
    assert(none + a =~= a);
    assert(parts(a) =~= seq![a]);
    lemma_next_part(a);
    lemma_longer_part(a.push('/'), b);
    assert(none + b =~= b);
    assert(parts(a.push('/') + b) =~= seq![a, b]);
    lemma_next_part(a.push('/') + b);
    assert((a.push('/') + b).push('/') =~= a.push('/') + b.push('/'));
    lemma_longer_part(a.push('/') + b.push('/'), c);
    assert(none + c =~= c);
    assert(parts(a.push('/') + b.push('/') + c) =~= seq![a, b, c]);
}

/// A postflop solve is found again under the label that was written for it, at
/// the depth that it was written with.
pub proof fn law_postflop_labels_read_back(named: Seq<char>, buckets: int)
    requires
        depth_of(named) is Some,
        free_of(named, '/'),
        2 <= buckets <= usize::MAX,
    ensures
        rung_named(rung_label(named, buckets)) == Some((depth_of(named)->0, buckets)),
{
    reveal_strlit("postflop/spr");
    reveal_strlit("postflop");
    reveal_strlit("spr");
    reveal_strlit("/b");
    reveal_strlit("b");
    let groups = text::digits(buckets);
    text::law_decimals_read_back(buckets);
    let (a, b, c) = ("postflop"@, "spr"@ + named, "b"@ + groups);
    assert forall|i: int| 0 <= i < b.len() implies #[trigger] b[i] != '/' by {
        if i >= 3 {
            assert(b[i] == named[i - 3]);
        }
    }
    assert forall|i: int| 0 <= i < c.len() implies #[trigger] c[i] != '/' by {
        if i >= 1 {
            assert(c[i] == groups[i - 1]);
        }
    }
    lemma_three_parts(a, b, c);
    assert(rung_label(named, buckets) =~= a.push('/') + b.push('/') + c);
    assert(b.subrange(0, 3) =~= "spr"@);
    assert(b.skip(3) =~= named);
    assert(c.subrange(0, 1) =~= "b"@);
    assert(c.skip(1) =~= groups);
    assert(groups[0] != '+');
    assert(text::number_of(groups) == Some(buckets));
}

impl KindError {
    /// The words for the error about a name.
    pub open spec fn words(self, name: Seq<char>) -> Seq<char> {
        match self {
            KindError::UnknownRing => "unknown game "@ + text::quoted_text(name)
                + "; try ring3 to ring7"@,
            KindError::SeatsOutOfRange =>
                "ring games run from three to 7 seats; heads-up is `preflop`"@,
            KindError::UnknownGame => "unknown game "@ + text::quoted_text(name)
                + "; try pushfold, preflop, or ring3 to ring7"@,
        }
    }

    /// Why a name is no game, in words.
    pub fn explain(&self, name: &str) -> (words: String)
        ensures
            words@ == self.words(name@),
    {
        let rest: &str = match self {
            KindError::UnknownRing => "; try ring3 to ring7",
            KindError::SeatsOutOfRange => {
                return String::from_str(
                    "ring games run from three to 7 seats; heads-up is `preflop`",
                );
            },
            KindError::UnknownGame => "; try pushfold, preflop, or ring3 to ring7",
        };
        let mut words: String = String::from_str("unknown game ");
        let quoted: String = text::quote_text(name);
        words.append(quoted.as_str());
        words.append(rest);
        words
    }
}

impl FlagError {
    /// The words for the error.
    pub open spec fn words(self) -> Seq<char> {
        match self {
            FlagError::Expected(found) => "expected a --flag, found "@ + text::quoted_text(found@),
            FlagError::NeedsValue(name) => "--"@ + name@ + " needs a value"@,
        }
    }

    /// What was wrong, in words.
    pub fn explain(&self) -> (words: String)
        ensures
            words@ == self.words(),
    {
        match self {
            FlagError::Expected(found) => {
                let mut words: String = String::from_str("expected a --flag, found ");
                let quoted: String = text::quote_text(found.as_str());
                words.append(quoted.as_str());
                words
            },
            FlagError::NeedsValue(name) => {
                let mut words: String = String::from_str("--");
                words.append(name.as_str());
                words.append(" needs a value");
                words
            },
        }
    }
}

/// Names in a row, with commas between them.
pub open spec fn name_list(names: Seq<Seq<char>>, count: int) -> Seq<char>
    decreases count,
{
    if count <= 0 {
        Seq::empty()
    } else if count == 1 {
        names[0]
    } else {
        name_list(names, count - 1) + ", "@ + names[count - 1]
    }
}

impl Kind {
    /// The names of the stages of the game, with commas between them.
    pub fn stage_list(self) -> (list: String)
        ensures
            list@ == name_list(self.stage_words(), self.stage_words().len() as int),
    {
        let stages: Vec<&'static str> = self.stages();
        let mut list: String = String::new();
        let mut i: usize = 0;
        assert(list@ =~= Seq::empty());
        while i < stages.len()
            invariant
                i <= stages@.len(),
                stages@.len() == self.stage_words().len(),
                forall|k: int|
                    0 <= k < stages@.len() ==> (#[trigger] stages@[k])@ == self.stage_words()[k],
                list@ == name_list(self.stage_words(), i as int),
            decreases stages@.len() - i,
        {
            let ghost before = list@;
            assert(stages@[i as int]@ == self.stage_words()[i as int]);
            if i > 0 {
                list.append(", ");
            }
            list.append(stages[i]);
            assert(list@ =~= name_list(self.stage_words(), i + 1));
            i = i + 1;
        }
        list
    }

    /// What to say of a stage that the game does not have.
    pub fn unknown_stage(self, stage: &str) -> (words: String)
        ensures
            words@ == "unknown stage "@ + text::quoted_text(stage@) + " for "@ + self.words()
                + "; try one of: "@ + name_list(
                self.stage_words(),
                self.stage_words().len() as int,
            ),
    {
        let mut words: String = String::from_str("unknown stage ");
        let quoted: String = text::quote_text(stage);
        words.append(quoted.as_str());
        words.append(" for ");
        words.append(self.name());
        words.append("; try one of: ");
        let list: String = self.stage_list();
        words.append(list.as_str());
        words
    }
}

/// What a flag is worth: what stands behind its last mention. A flag that is
/// not mentioned is worth nothing.
pub proof fn law_the_last_mention_counts(pairs: Seq<(Seq<char>, Seq<char>)>, name: Seq<char>)
    ensures
        forall|i: int|
            #![trigger pairs[i]]
            0 <= i < pairs.len() && pairs[i].0 == name && (forall|k: int|
                i < k < pairs.len() ==> (#[trigger] pairs[k]).0 != name) ==> value_for(pairs, name) == Some(
                pairs[i].1,
            ),
        (forall|k: int| 0 <= k < pairs.len() ==> (#[trigger] pairs[k]).0 != name) ==> value_for(pairs, name) is None,
    decreases pairs.len(),
{
    if pairs.len() > 0 && pairs.last().0 != name {
        let shorter = pairs.drop_last();
        law_the_last_mention_counts(shorter, name);
        assert(forall|k: int| 0 <= k < shorter.len() ==> #[trigger] shorter[k] == pairs[k]);
        assert forall|i: int|
            #![trigger pairs[i]]
            0 <= i < pairs.len() && pairs[i].0 == name && (forall|k: int|
                i < k < pairs.len() ==> (#[trigger] pairs[k]).0 != name) implies value_for(pairs, name) == Some(
            pairs[i].1,
        ) by {
            assert(shorter[i] == pairs[i]);
        }
        if forall|k: int| 0 <= k < pairs.len() ==> (#[trigger] pairs[k]).0 != name {
            assert forall|k: int| 0 <= k < shorter.len() implies (#[trigger] shorter[k]).0 != name by {
                assert(shorter[k] == pairs[k]);
            }
        }
    }
}

/// Whether an argument begins with two dashes.
pub open spec fn is_dashed(argument: Seq<char>) -> bool {
    argument.len() >= 2 && argument[0] == '-' && argument[1] == '-'
}

/// How arguments pair up. An argument that begins with two dashes is named by
/// the rest of it and takes the next argument where that has no dashes of its
/// own. Only `explain`, `monitor` and `resize` may stand without one, and mean
/// `on`. What follows a pair is read as if it came first.
pub proof fn law_flags_take_what_follows(args: Seq<Seq<char>>, at: int)
    requires
        0 <= at < args.len(),
    ensures
        ({
            let read = pairs_from(args, at);
            let name = args[at].skip(2);
            let followed = at + 1 < args.len() && !is_dashed(args[at + 1]);
            let alone = name == "explain"@ || name == "monitor"@ || name == "resize"@;
            let after = pairs_from(args, if followed {
                at + 2
            } else {
                at + 1
            });
            &&& !is_dashed(args[at]) ==> read == Err::<Seq<(Seq<char>, Seq<char>)>, Fault>(Fault::Expected(at))
            &&& is_dashed(args[at]) && !followed && !alone ==> read == Err::<Seq<(Seq<char>, Seq<char>)>, Fault>(
                Fault::NeedsValue(at),
            )
            &&& is_dashed(args[at]) && (followed || alone) ==> (read is Err <==> after is Err)
            &&& is_dashed(args[at]) && (followed || alone) && read is Err ==> read->Err_0 == after->Err_0
            &&& is_dashed(args[at]) && (followed || alone) && read is Ok ==> {
                &&& read->Ok_0.len() == after->Ok_0.len() + 1
                &&& read->Ok_0[0].0 == name
                &&& read->Ok_0[0].1 == (if followed {
                    args[at + 1]
                } else {
                    "on"@
                })
                &&& read->Ok_0.skip(1) == after->Ok_0
            }
        }),
{
    lemma_dashes(args[at]);
    if at + 1 < args.len() {
        lemma_dashes(args[at + 1]);
    }
    let read = pairs_from(args, at);
    let followed = at + 1 < args.len() && !is_dashed(args[at + 1]);
    let after = pairs_from(args, if followed {
        at + 2
    } else {
        at + 1
    });
    if read is Ok && after is Ok {
        assert(read->Ok_0.skip(1) =~= after->Ok_0);
    }
}

/// A flag is what begins with two dashes.
proof fn lemma_dashes(argument: Seq<char>)
    ensures
        is_flag(argument) == is_dashed(argument),
{
    reveal_strlit("--");
    if is_dashed(argument) {
        assert(argument.subrange(0, 2) =~= "--"@);
    }
    if is_flag(argument) {
        let start = argument.subrange(0, 2);
        assert(start[0] == argument[0] && start[1] == argument[1]);
    }
}

/// What the parts of a text are: a text without a slash is the one part of
/// itself, and one more part comes behind every further slash.
pub proof fn law_parts_lie_between_slashes(before: Seq<char>, part: Seq<char>)
    requires
        free_of(part, '/'),
    ensures
        parts(part) == seq![part],
        parts(before.push('/') + part) == parts(before).push(part),
{
    let none = Seq::<char>::empty();
    lemma_longer_part(none, part);
    assert(none + part =~= part);
    assert(parts(none) =~= seq![none]);
    assert(parts(part) =~= seq![part]);
    lemma_next_part(before);
    lemma_longer_part(before.push('/'), part);
    assert(parts(before.push('/') + part) =~= parts(before).push(part));
}

/// Which names are names of games: `pushfold`, `preflop` and `ring` with three
/// to seven seats behind it. A ring of another number is told from a ring of no
/// number, and both from what is no game at all.
pub proof fn law_only_known_games_are_named(name: Seq<char>)
    ensures
        kind_named(name) == Ok::<Kind, KindError>(Kind::PushFold) <==> name == seq![
            'p',
            'u',
            's',
            'h',
            'f',
            'o',
            'l',
            'd',
        ],
        kind_named(name) == Ok::<Kind, KindError>(Kind::Preflop) <==> name == seq!['p', 'r', 'e', 'f', 'l', 'o', 'p'],
        ({
            let ring = name.len() >= 4 && name[0] == 'r' && name[1] == 'i' && name[2] == 'n' && name[3] == 'g';
            let seats = text::number_of(name.skip(4));
            &&& kind_named(name) matches Ok(Kind::Ring(count)) ==> ring && seats == Some(count as int) && 3 <= count <= 7
            &&& ring && seats is Some && 3 <= seats->0 <= 7 ==> kind_named(name) == Ok::<Kind, KindError>(
                Kind::Ring(seats->0 as usize),
            )
            &&& ring && seats is Some && !(3 <= seats->0 <= 7) ==> kind_named(name) == Err::<Kind, KindError>(
                KindError::SeatsOutOfRange,
            )
            &&& ring && seats is None ==> kind_named(name) == Err::<Kind, KindError>(KindError::UnknownRing)
        }),
{
    reveal_strlit("pushfold");
    reveal_strlit("preflop");
    reveal_strlit("ring");
    assert("pushfold"@ =~= seq!['p', 'u', 's', 'h', 'f', 'o', 'l', 'd']);
    assert("preflop"@ =~= seq!['p', 'r', 'e', 'f', 'l', 'o', 'p']);
    if name.len() >= 4 {
        let start = name.subrange(0, 4);
        assert(start[0] == name[0] && start[1] == name[1] && start[2] == name[2] && start[3] == name[3]);
        if name[0] == 'r' && name[1] == 'i' && name[2] == 'n' && name[3] == 'g' {
            assert(start =~= "ring"@);
        }
    }
}

/// What digits with a point among them name: the number that they are without
/// the point, over a one with a nought for every digit behind it.
pub proof fn law_depths_are_read_to_the_nearest(whole: Seq<char>, fraction: Seq<char>)
    requires
        text::is_decimal(whole),
        all_digits(fraction),
    ensures
        ({
            let named = depth_of(whole + "."@ + fraction);
            let depth = double::quotient(text::value_of(whole + fraction), double::pow10(fraction.len() as int));
            depth > 0 ==> named == Some(depth)
        }),
        ({
            let depth = double::quotient(text::value_of(whole), 1);
            depth > 0 ==> depth_of(whole) == Some(depth)
        }),
{
    reveal_strlit(".");
    reveal_strlit("inf");
    reveal_strlit("infinity");
    let both = whole + "."@ + fraction;
    assert forall|i: int| 0 <= i < both.len() implies #[trigger] both[i] == '.' || '0' <= both[i] <= '9' by {
        if i > whole.len() {
            assert(both[i] == fraction[i - whole.len() - 1]);
        } else if i < whole.len() {
            assert(both[i] == whole[i]);
        }
    }
    lemma_no_exponent(both, 0);
    lemma_no_exponent(whole, 0);
    let (low, long) = (whole.map_values(|c: char| text::lowered(c)), both.map_values(|c: char| text::lowered(c)));
    assert(low[0] == text::lowered(whole[0]) && long[0] == text::lowered(both[0]));
    assert(both[0] == whole[0]);
    assert("inf"@[0] == 'i' && "infinity"@[0] == 'i');
    lemma_found_behind(whole, "."@, fraction, 0);
    lemma_not_found(whole, "."@, 0);
    assert(both.take(whole.len() as int) =~= whole);
    assert(both.skip(whole.len() + 1int) =~= fraction);
    assert(whole.take(whole.len() as int) =~= whole);
    assert(whole + Seq::<char>::empty() =~= whole);
    reveal_with_fuel(double::pow10, 2);
    assert(text::value_of(whole) * 1 == text::value_of(whole));
}

/// No exponent follows digits and points.
proof fn lemma_no_exponent(text: Seq<char>, from: int)
    requires
        0 <= from,
        forall|i: int| 0 <= i < text.len() ==> #[trigger] text[i] == '.' || '0' <= text[i] <= '9',
    ensures
        exponent_mark(text, from) == text.len() as int,
    decreases text.len() - from,
{
    if from < text.len() {
        assert(text[from] == '.' || '0' <= text[from] <= '9');
        lemma_no_exponent(text, from + 1);
    }
}

/// An exponent moves the point: behind a letter for it, every one makes ten
/// times as much of the digits.
pub proof fn law_exponents_are_powers_of_ten(whole: Seq<char>, exponent: Seq<char>)
    requires
        text::is_decimal(whole),
        text::is_decimal(exponent),
    ensures
        ({
            let most = double::quotient(text::value_of(whole) * double::pow10(text::value_of(exponent)), 1);
            most > 0 ==> depth_of(whole + seq!['e'] + exponent) == Some(most) && depth_of(
                whole + seq!['E'] + exponent,
            ) == Some(most)
        }),
        ({
            let least = double::quotient(text::value_of(whole), double::pow10(text::value_of(exponent)));
            least > 0 && text::value_of(exponent) > 0 ==> depth_of(whole + seq!['e', '-'] + exponent) == Some(least)
        }),
{
    lemma_exponent(whole, seq!['e'], exponent);
    lemma_exponent(whole, seq!['E'], exponent);
    lemma_exponent(whole, seq!['e', '-'], exponent);
    lemma_value(exponent);
}

/// Digits are worth nothing less than nothing.
proof fn lemma_value(text: Seq<char>)
    requires
        all_digits(text),
    ensures
        text::value_of(text) >= 0,
    decreases text.len(),
{
    if text.len() > 0 {
        let shorter = text.drop_last();
        assert forall|i: int| 0 <= i < shorter.len() implies '0' <= #[trigger] shorter[i] <= '9' by {
            assert(shorter[i] == text[i]);
        }
        lemma_value(shorter);
        assert(text.last() == text[text.len() - 1]);
    }
}

/// Digits, a mark and digits are read apart.
proof fn lemma_exponent(whole: Seq<char>, mark: Seq<char>, exponent: Seq<char>)
    requires
        text::is_decimal(whole),
        text::is_decimal(exponent),
        mark == seq!['e'] || mark == seq!['E'] || mark == seq!['e', '-'],
    ensures
        depth_of(whole + mark + exponent) == depth_written(
            whole,
            if mark.len() == 2 {
                -text::value_of(exponent)
            } else {
                text::value_of(exponent)
            },
        ),
        text::found(whole, "."@, 0) is None,
        whole.take(whole.len() as int) + Seq::<char>::empty() == whole,
        whole.take(whole.len() as int) == whole,
{
    reveal_strlit(".");
    reveal_strlit("inf");
    reveal_strlit("infinity");
    let all = whole + mark + exponent;
    assert forall|i: int| 0 <= i < whole.len() implies #[trigger] all[i] == whole[i] && '0' <= all[i] <= '9' by {}
    lemma_mark_found(all, whole.len() as int, 0);
    let low = all.map_values(|c: char| text::lowered(c));
    assert(low[0] == text::lowered(all[0]));
    assert("inf"@[0] == 'i' && "infinity"@[0] == 'i');
    assert(all[0] == whole[0]);
    lemma_not_found(whole, "."@, 0);
    assert(all.take(whole.len() as int) =~= whole);
    let rest = all.skip(whole.len() + 1int);
    if mark.len() == 2 {
        assert(rest[0] == '-');
        assert(rest.skip(1) =~= exponent);
    } else {
        assert(rest =~= exponent);
        assert('0' <= exponent[0] <= '9');
    }
    assert(whole.take(whole.len() as int) =~= whole);
    assert(whole + Seq::<char>::empty() =~= whole);
}

/// The first letter for an exponent is where digits end.
proof fn lemma_mark_found(text: Seq<char>, end: int, from: int)
    requires
        0 <= from <= end < text.len(),
        text[end] == 'e' || text[end] == 'E',
        forall|i: int| 0 <= i < end ==> '0' <= #[trigger] text[i] <= '9',
    ensures
        exponent_mark(text, from) == end,
    decreases end - from,
{
    if from < end {
        assert('0' <= text[from] <= '9');
        lemma_mark_found(text, end, from + 1);
    }
}

/// What is said of an amount at the table: how many big blinds it is, to the
/// nearest hundredth.
pub proof fn law_amounts_are_said_in_blinds(chips: int, big_blind: int)
    requires
        0 <= chips < 0x100_0000_0000,
        0 < big_blind < 0x100_0000_0000,
    ensures
        exists|count: int|
            0 <= count && -big_blind <= 200 * chips - 2 * (count * big_blind) <= big_blind && blinds_words(
                chips,
                big_blind,
            ) == #[trigger] text::hundredths(count),
{
    double::lemma_shown_hundredths(chips, big_blind);
    let count = double::in_parts(double::ratio(chips, big_blind), 100);
    assert(blinds_words(chips, big_blind) == text::hundredths(count));
}

/// What is said of an action: a raise is a bet where there is nothing to call,
/// and says what it is raised to; a call says what it costs.
pub proof fn law_actions_are_said(amount: u64, to_call: u64, big_blind: u64)
    requires
        to_call > 0,
    ensures
        ({
            let (cost, size) = (blinds_words(to_call as int, big_blind as int), blinds_words(
                amount as int,
                big_blind as int,
            ));
            &&& described(Action::Fold, to_call, big_blind) == "folds"@
            &&& described(Action::Check, 0, big_blind) == "checks"@
            &&& described(Action::Call, to_call, big_blind) == "calls "@ + cost + " bb"@
            &&& described(Action::RaiseTo(amount), 0, big_blind) == "bets to "@ + size + " bb"@
            &&& described(Action::RaiseTo(amount), to_call, big_blind) == "raises to "@ + size + " bb"@
        }),
{
}

/// Which window is a table's. Turned on its side it is none, and a wider or a
/// lower one is one too; a window within another has the smaller area.
pub proof fn law_tables_are_wider_than_tall(size: (usize, usize), other: (usize, usize))
    requires
        other.0 >= size.0,
    ensures
        is_landscape(size) ==> !is_landscape((size.1, size.0)),
        !is_landscape(size) && size.0 != size.1 ==> is_landscape((size.1, size.0)),
        is_landscape(size) && other.1 <= size.1 ==> is_landscape(other),
        is_landscape((1, 0)),
        other.1 >= size.1 ==> area(other) >= area(size),
        other.1 > size.1 && size.0 > 0 ==> area(other) > area(size),
        other.0 > size.0 && other.1 >= size.1 && size.1 > 0 ==> area(other) > area(size),
{
    let (a, b, c, d) = (size.0 as int, size.1 as int, other.0 as int, other.1 as int);
    if b <= d {
        assert(a * b <= c * d) by (nonlinear_arith)
            requires
                0 <= a <= c,
                0 <= b <= d,
        ;
    }
    if b < d && a > 0 {
        assert(a * b < c * d) by (nonlinear_arith)
            requires
                0 < a <= c,
                0 <= b < d,
        ;
    }
    if a < c && b <= d && b > 0 {
        assert(a * b < c * d) by (nonlinear_arith)
            requires
                0 <= a < c,
                0 < b <= d,
        ;
    }
}

/// Who acts at which stage, and what there is to do: the small blind acts first
/// and every other time. Folding always comes first, then a call where there is
/// a raise to call, a raise while one is left, and a jam while nobody has
/// jammed.
pub proof fn law_stages_take_turns(stage: int)
    requires
        0 <= stage < 6,
    ensures
        Kind::Preflop.stage_words().len() == 6,
        Kind::PushFold.stage_words() == seq!["sb"@, "bb"@],
        starts(Kind::Preflop.stage_words()[stage], if stage % 2 == 0 {
            "sb"@
        } else {
            "bb"@
        }),
        ({
            let words = Kind::Preflop.action_words(stage);
            let raises = stage < 3;
            let jams = stage < 4;
            let calls = stage > 0;
            let count = 1 + (if calls {
                1int
            } else {
                0
            }) + (if raises {
                1int
            } else {
                0
            }) + (if jams {
                1int
            } else {
                0
            });
            &&& words.len() == count
            &&& words[0] == "fold"@
            &&& calls ==> words[1] == "call"@
            &&& raises ==> words[if calls {
                2int
            } else {
                1
            }] == "raise"@
            &&& jams ==> words.last() == "jam"@
        }),
        Kind::PushFold.action_words(0) == seq!["fold"@, "jam"@],
        Kind::PushFold.action_words(1) == seq!["fold"@, "call"@],
{
    reveal_strlit("sb");
    reveal_strlit("bb");
    reveal_strlit("sb-open");
    reveal_strlit("bb-vs-open");
    reveal_strlit("sb-vs-3bet");
    reveal_strlit("bb-vs-4bet");
    reveal_strlit("sb-vs-jam");
    reveal_strlit("bb-vs-jam");
    let word = Kind::Preflop.stage_words()[stage];
    assert(word.len() >= 2);
    if stage % 2 == 0 {
        assert(word.subrange(0, 2) =~= "sb"@);
    } else {
        assert(word.subrange(0, 2) =~= "bb"@);
    }
}

/// How names are listed: each behind the one before it, with what separates them
/// between the two and nothing after the last.
pub proof fn law_lists_are_separated(names: Seq<&str>, words: Seq<Seq<char>>, depths: Seq<String>)
    requires
        names.len() >= 1,
        words.len() >= 1,
        depths.len() >= 1,
    ensures
        listing(names, 1) == "--"@ + names[0]@,
        name_list(words, 1) == words[0],
        depth_list(depths, 1) == depths[0]@,
        forall|n: int|
            1 <= n < names.len() ==> listing(names, n + 1) == #[trigger] listing(names, n) + ", "@ + "--"@ + names[n]@,
        forall|n: int|
            1 <= n < words.len() ==> name_list(words, n + 1) == #[trigger] name_list(words, n) + ", "@ + words[n],
        forall|n: int|
            1 <= n < depths.len() ==> depth_list(depths, n + 1) == #[trigger] depth_list(depths, n) + "/"@ + depths[n]@,
{
}

/// What two blueprints have in common: the keys that both of them hold.
pub proof fn law_shared_keys_are_in_both(left: blueprint::Stored, right: blueprint::Stored, key: u64)
    ensures
        in_both(left, right).contains(key) <==> left.keys.contains(key) && right.keys.contains(key),
        in_both(left, right) == in_both(right, left),
        differ_at(left, right, key) ==> in_both(left, right).contains(key),
        differ_at(left, right, key) == differ_at(right, left, key),
        !differ_at(left, left, key),
{
    assert(in_both(left, right) =~= in_both(right, left));
}

/// A plus sign before a depth changes nothing.
pub proof fn law_a_plus_sign_changes_nothing(named: Seq<char>)
    requires
        named.len() > 0,
        named[0] != '+',
    ensures
        depth_of(seq!['+'] + named) == depth_of(named),
{
    assert((seq!['+'] + named).skip(1) =~= named);
}

} // verus!
