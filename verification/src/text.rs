//! Small pieces of text: numbers in decimal, and comparing words.
use vstd::prelude::*;

verus! {

/// The character of a digit.
pub open spec fn digit(value: int) -> char {
    (48 + value) as char
}

/// A number in decimal, without leading zeros.
pub open spec fn digits(value: int) -> Seq<char>
    decreases value,
{
    if value < 10 {
        seq![digit(value)]
    } else {
        digits(value / 10).push(digit(value % 10))
    }
}

/// The text of one digit.
fn digit_text(value: u64) -> (text: &'static str)
    requires
        value < 10,
    ensures
        text@ == seq![digit(value as int)],
{
    proof {
        reveal_strlit("0");
        reveal_strlit("1");
        reveal_strlit("2");
        reveal_strlit("3");
        reveal_strlit("4");
        reveal_strlit("5");
        reveal_strlit("6");
        reveal_strlit("7");
        reveal_strlit("8");
        reveal_strlit("9");
    }
    let text: &'static str = match value {
        0 => "0",
        1 => "1",
        2 => "2",
        3 => "3",
        4 => "4",
        5 => "5",
        6 => "6",
        7 => "7",
        8 => "8",
        _ => "9",
    };
    assert(text@ =~= seq![digit(value as int)]);
    text
}

/// A number in decimal, without leading zeros.
pub fn decimal(value: u64) -> (text: String)
    ensures
        text@ == digits(value as int),
    decreases value,
{
    if value < 10 {
        String::from_str(digit_text(value))
    } else {
        let mut text: String = decimal(value / 10);
        text.append(digit_text(value % 10));
        assert(text@ =~= digits(value as int));
        text
    }
}

/// A number of any machine size in decimal.
pub fn long_decimal(value: u128) -> (text: String)
    ensures
        text@ == digits(value as int),
    decreases value,
{
    if value < 10 {
        String::from_str(digit_text(value as u64))
    } else {
        let mut text: String = long_decimal(value / 10);
        text.append(digit_text((value % 10) as u64));
        assert(text@ =~= digits(value as int));
        text
    }
}

/// So many tenths, with one decimal.
pub open spec fn tenths(value: int) -> Seq<char> {
    digits(value / 10) + "."@ + digits(value % 10)
}

/// So many hundredths, with two decimals.
pub open spec fn hundredths(value: int) -> Seq<char> {
    digits(value / 100) + "."@ + digits(value % 100 / 10) + digits(value % 10)
}

/// So many tenths, with one decimal.
pub fn with_tenths(value: u128) -> (text: String)
    ensures
        text@ == tenths(value as int),
{
    let mut text: String = long_decimal(value / 10);
    text.append(".");
    let rest: String = long_decimal(value % 10);
    text.append(rest.as_str());
    text
}

/// So many hundredths, with two decimals.
pub fn with_hundredths(value: u128) -> (text: String)
    ensures
        text@ == hundredths(value as int),
{
    let mut text: String = long_decimal(value / 100);
    text.append(".");
    let tenths: String = long_decimal(value % 100 / 10);
    text.append(tenths.as_str());
    let rest: String = long_decimal(value % 10);
    text.append(rest.as_str());
    text
}

/// Whether two texts are the same.
pub fn same(one: &str, other: &str) -> (equal: bool)
    ensures
        equal == (one@ == other@),
{
    String::from_str(one) == String::from_str(other)
}

/// The number that a text of digits stands for.
pub open spec fn value_of(text: Seq<char>) -> int
    decreases text.len(),
{
    if text.len() == 0 {
        0
    } else {
        10 * value_of(text.drop_last()) + (text.last() as int - 48)
    }
}

/// Whether a text is a decimal number: digits and nothing else.
pub open spec fn is_decimal(text: Seq<char>) -> bool {
    text.len() > 0 && forall|i: int| 0 <= i < text.len() ==> '0' <= #[trigger] text[i] <= '9'
}

/// A number reads back from its own text.
pub proof fn law_decimals_read_back(value: int)
    requires
        0 <= value,
    ensures
        is_decimal(digits(value)),
        value_of(digits(value)) == value,
    decreases value,
{
    if value < 10 {
        assert(digits(value).drop_last() =~= Seq::empty());
        assert(value_of(Seq::<char>::empty()) == 0);
    } else {
        law_decimals_read_back(value / 10);
        let text = digits(value);
        assert(text.drop_last() =~= digits(value / 10));
        assert forall|i: int| 0 <= i < text.len() implies '0' <= #[trigger] text[i] <= '9' by {
            if i < text.len() - 1 {
                assert(text[i] == digits(value / 10)[i]);
            }
        }
    }
}

/// Where `mark` first occurs in a text, from `from` on.
pub open spec fn found(text: Seq<char>, mark: Seq<char>, from: int) -> Option<int>
    decreases text.len() + 1 - from,
{
    if from + mark.len() > text.len() || from < 0 {
        None
    } else if text.subrange(from, from + mark.len()) == mark {
        Some(from)
    } else {
        found(text, mark, from + 1)
    }
}

/// Whether `mark` stands at a place of a text.
pub fn stands_at(text: &Vec<char>, mark: &Vec<char>, at: usize) -> (stands: bool)
    ensures
        stands == (at + mark@.len() <= text@.len() && text@.subrange(
            at as int,
            at + mark@.len(),
        ) == mark@),
{
    let size: usize = text.len();
    if at > size || mark.len() > size - at {
        return false;
    }
    let mut i: usize = 0;
    while i < mark.len()
        invariant
            i <= mark@.len(),
            size == text@.len(),
            at + mark@.len() <= size,
            forall|j: int| 0 <= j < i ==> text@[at + j] == #[trigger] mark@[j],
        decreases mark@.len() - i,
    {
        if text[at + i] != mark[i] {
            assert(text@.subrange(at as int, at + mark@.len())[i as int] != mark@[i as int]);
            return false;
        }
        i = i + 1;
    }
    assert(text@.subrange(at as int, at + mark@.len()) =~= mark@);
    true
}

/// Where `mark` first occurs in a text.
pub fn find(text: &Vec<char>, mark: &Vec<char>) -> (at: Option<usize>)
    ensures
        match at {
            Some(at) => found(text@, mark@, 0) == Some(at as int) && at + mark@.len() <= text@.len(),
            None => found(text@, mark@, 0) is None,
        },
{
    let size: usize = text.len();
    let mut at: usize = 0;
    while at < size && mark.len() <= size - at
        invariant
            at <= size,
            size == text@.len(),
            found(text@, mark@, 0) == found(text@, mark@, at as int),
        decreases size - at,
    {
        if stands_at(text, mark, at) {
            return Some(at);
        }
        at = at + 1;
    }
    if stands_at(text, mark, at) {
        return Some(at);
    }
    proof {
        if mark@.len() == 0 {
            assert(text@.subrange(at as int, at as int) =~= mark@);
        }
    }
    None
}

/// Whether a text comes before another in a dictionary of code points.
pub open spec fn precedes(one: Seq<char>, other: Seq<char>) -> bool
    decreases one.len(),
{
    if other.len() == 0 {
        false
    } else if one.len() == 0 {
        true
    } else if one[0] != other[0] {
        one[0] < other[0]
    } else {
        precedes(one.skip(1), other.skip(1))
    }
}

/// Any two different texts are in one order or the other, never both.
pub proof fn lemma_order_is_total(one: Seq<char>, other: Seq<char>)
    ensures
        one == other ==> !precedes(one, other),
        one != other ==> precedes(one, other) != precedes(other, one),
    decreases one.len(),
{
    if one.len() == 0 && other.len() == 0 {
        assert(one =~= other);
    } else if one.len() > 0 && other.len() > 0 && one[0] == other[0] {
        lemma_order_is_total(one.skip(1), other.skip(1));
        if one.skip(1) == other.skip(1) {
            assert(one =~= seq![one[0]] + one.skip(1));
            assert(other =~= seq![other[0]] + other.skip(1));
        }
    }
}

pub proof fn lemma_order_is_transitive(one: Seq<char>, middle: Seq<char>, other: Seq<char>)
    requires
        precedes(one, middle),
        precedes(middle, other),
    ensures
        precedes(one, other),
    decreases one.len(),
{
    if one.len() > 0 && one[0] == middle[0] && middle[0] == other[0] {
        lemma_order_is_transitive(one.skip(1), middle.skip(1), other.skip(1));
    }
}

/// Whether a text comes before another in a dictionary of code points.
pub fn is_before(one: &Vec<char>, other: &Vec<char>) -> (before: bool)
    ensures
        before == precedes(one@, other@),
{
    let mut i: usize = 0;
    assert(one@.skip(0) =~= one@);
    assert(other@.skip(0) =~= other@);
    while i < one.len() && i < other.len()
        invariant
            i <= one@.len(),
            i <= other@.len(),
            precedes(one@, other@) == precedes(one@.skip(i as int), other@.skip(i as int)),
        decreases one@.len() - i,
    {
        if one[i] != other[i] {
            return one[i] < other[i];
        }
        assert(one@.skip(i as int).skip(1) =~= one@.skip(i + 1));
        assert(other@.skip(i as int).skip(1) =~= other@.skip(i + 1));
        i = i + 1;
    }
    i < other.len()
}

/// A letter in lower case, anything else as it is.
pub open spec fn lowered(c: char) -> char {
    if 'A' <= c <= 'Z' {
        (c as u32 + 32) as char
    } else {
        c
    }
}

/// The number that a text is read as: digits, with or without a plus sign
/// before them, that fit a machine word.
pub open spec fn number_of(text: Seq<char>) -> Option<int> {
    let body = if text.len() > 0 && text[0] == '+' {
        text.skip(1)
    } else {
        text
    };
    if is_decimal(body) && value_of(body) <= usize::MAX {
        Some(value_of(body))
    } else {
        None
    }
}

/// The number that the part of a text from `from` on is read as.
pub fn parse_number(text: &Vec<char>, from: usize) -> (number: Option<usize>)
    requires
        from <= text@.len(),
    ensures
        match number {
            Some(number) => number_of(text@.skip(from as int)) == Some(number as int),
            None => number_of(text@.skip(from as int)) is None,
        },
{
    let ghost whole = text@.skip(from as int);
    let start: usize = if from < text.len() && text[from] == '+' {
        from + 1
    } else {
        from
    };
    let ghost body = text@.skip(start as int);
    proof {
        if start > from {
            assert(whole[0] == '+');
            assert(whole.skip(1) =~= body);
        } else if whole.len() > 0 {
            assert(whole[0] != '+');
        }
    }
    if start >= text.len() {
        return None;
    }
    let mut value: usize = 0;
    let mut at: usize = start;
    let mut fits: bool = true;
    assert(body.take(0) =~= Seq::empty());
    while at < text.len()
        invariant
            start <= at <= text@.len(),
            start < text@.len(),
            body == text@.skip(start as int),
            whole == text@.skip(from as int),
            number_of(whole) == (if is_decimal(body) && value_of(body) <= usize::MAX {
                Some(value_of(body))
            } else {
                None
            }),
            forall|i: int| 0 <= i < at - start ==> '0' <= #[trigger] body[i] <= '9',
            fits ==> value == value_of(body.take(at - start)),
            !fits ==> value_of(body.take(at - start)) > usize::MAX,
        decreases text@.len() - at,
    {
        let c: char = text[at];
        assert(body[at - start] == c);
        if c < '0' || c > '9' {
            return None;
        }
        let digit: usize = (c as u32 - 48) as usize;
        let ghost (shorter, longer) = (body.take(at - start), body.take(at - start + 1));
        proof {
            assert(longer.drop_last() =~= shorter);
            assert(value_of(longer) == 10 * value_of(shorter) + digit);
        }
        if fits && value <= (usize::MAX - digit) / 10 {
            value = 10 * value + digit;
        } else {
            fits = false;
        }
        at = at + 1;
    }
    assert(body.take(at - start) =~= body);
    assert(is_decimal(body));
    if fits {
        Some(value)
    } else {
        None
    }
}

/// A number in decimal with zeros before it, up to a width.
pub open spec fn zero_padded(value: int, width: int) -> Seq<char> {
    let number = digits(value);
    if number.len() >= width {
        number
    } else {
        Seq::new((width - number.len()) as nat, |i: int| '0') + number
    }
}

/// A number in decimal with zeros before it, up to a width.
pub fn padded(value: u64, width: usize) -> (text: String)
    ensures
        text@ == zero_padded(value as int, width as int),
{
    let number: String = decimal(value);
    let size: usize = number.as_str().unicode_len();
    let mut text: String = String::new();
    let mut length: usize = size;
    proof {
        reveal_strlit("0");
        assert(text@ =~= Seq::new(0, |i: int| '0'));
    }
    while length < width
        invariant
            size <= length,
            length <= width || length == size,
            text@ == Seq::new((length - size) as nat, |i: int| '0'),
            "0"@ == seq!['0'],
        decreases width - length,
    {
        text.append("0");
        assert(text@ =~= Seq::new((length + 1 - size) as nat, |i: int| '0'));
        length = length + 1;
    }
    text.append(number.as_str());
    assert(text@ =~= zero_padded(value as int, width as int));
    text
}

/// So many spaces.
pub open spec fn spaces(count: int) -> Seq<char> {
    Seq::new(
        if count > 0 {
            count as nat
        } else {
            0
        },
        |i: int| ' ',
    )
}

/// Appends spaces to a text.
fn append_spaces(text: &mut String, count: usize)
    ensures
        final(text)@ == old(text)@ + spaces(count as int),
{
    let ghost before = text@;
    let mut done: usize = 0;
    proof {
        reveal_strlit(" ");
        assert(text@ =~= before + spaces(0));
    }
    while done < count
        invariant
            done <= count,
            text@ == before + spaces(done as int),
            " "@ == seq![' '],
        decreases count - done,
    {
        text.append(" ");
        assert(text@ =~= before + spaces(done + 1));
        done = done + 1;
    }
}

/// A text with spaces after it, up to a width.
pub open spec fn set_left(text: Seq<char>, width: int) -> Seq<char> {
    text + spaces(width - text.len())
}

/// A text with spaces before it, up to a width.
pub open spec fn set_right(text: Seq<char>, width: int) -> Seq<char> {
    spaces(width - text.len()) + text
}

/// A text with spaces after it, up to a width.
pub fn on_the_left(text: &str, width: usize) -> (set: String)
    ensures
        set@ == set_left(text@, width as int),
{
    let mut set: String = String::from_str(text);
    let size: usize = text.unicode_len();
    if size < width {
        append_spaces(&mut set, width - size);
    }
    assert(set@ =~= set_left(text@, width as int));
    set
}

/// A text with spaces before it, up to a width.
pub fn on_the_right(text: &str, width: usize) -> (set: String)
    ensures
        set@ == set_right(text@, width as int),
{
    let mut set: String = String::new();
    let size: usize = text.unicode_len();
    if size < width {
        append_spaces(&mut set, width - size);
    }
    set.append(text);
    assert(set@ =~= set_right(text@, width as int));
    set
}

/// A character as the formatting of `char` for debugging writes it: in single
/// quotes, escaped where it does not print.
pub uninterp spec fn quoted_char(c: char) -> Seq<char>;

/// A text as the formatting of `str` for debugging writes it: in double quotes,
/// escaped where it does not print.
pub uninterp spec fn quoted_text(text: Seq<char>) -> Seq<char>;

/// Formats a `char` for debugging. What comes back is settled by the character
/// alone; which characters are escaped, and how, is left unsaid.
#[verifier::external_body]
pub(crate) fn quote_char(c: char) -> (text: String)
    ensures
        text@ == quoted_char(c),
{
    format!("{c:?}")
}

/// Formats a `str` for debugging. What comes back is settled by the text alone;
/// which characters are escaped, and how, is left unsaid.
#[verifier::external_body]
pub(crate) fn quote_text(text: &str) -> (quoted: String)
    ensures
        quoted@ == quoted_text(text@),
{
    format!("{text:?}")
}

/// A mark is found where it first stands, and not at all where it stands nowhere.
pub proof fn law_a_mark_is_found_where_it_first_stands(text: Seq<char>, mark: Seq<char>, at: int)
    requires
        0 <= at,
    ensures
        found(text, mark, 0) == Some(at) <==> {
            &&& at + mark.len() <= text.len()
            &&& text.subrange(at, at + mark.len()) == mark
            &&& forall|i: int| 0 <= i < at ==> #[trigger] text.subrange(i, i + mark.len()) != mark
        },
        found(text, mark, 0) is None <==> forall|i: int|
            0 <= i && i + mark.len() <= text.len() ==> #[trigger] text.subrange(i, i + mark.len()) != mark,
{
    lemma_found_first(text, mark, 0);
    if let Some(place) = found(text, mark, 0) {
        assert(text.subrange(place, place + mark.len()) == mark);
    }
}

proof fn lemma_found_first(text: Seq<char>, mark: Seq<char>, from: int)
    requires
        0 <= from,
    ensures
        match found(text, mark, from) {
            Some(at) => {
                &&& from <= at && at + mark.len() <= text.len()
                &&& text.subrange(at, at + mark.len()) == mark
                &&& forall|i: int| from <= i < at ==> #[trigger] text.subrange(i, i + mark.len()) != mark
            },
            None => forall|i: int|
                from <= i && i + mark.len() <= text.len() ==> #[trigger] text.subrange(i, i + mark.len()) != mark,
        },
    decreases text.len() + 1 - from,
{
    if from + mark.len() <= text.len() && text.subrange(from, from + mark.len()) != mark {
        lemma_found_first(text, mark, from + 1);
    }
}

/// A text comes before another where it is the start of it and shorter, or where
/// the first character in which they differ is smaller.
pub proof fn law_texts_are_in_dictionary_order(one: Seq<char>, other: Seq<char>, at: int)
    requires
        0 <= at <= one.len(),
        at <= other.len(),
        forall|i: int| 0 <= i < at ==> #[trigger] one[i] == other[i],
        at < one.len() && at < other.len() ==> one[at] != other[at],
    ensures
        precedes(one, other) <==> (if at < one.len() && at < other.len() {
            one[at] < other[at]
        } else {
            at == one.len() && at < other.len()
        }),
    decreases at,
{
    if at > 0 {
        assert(one[0] == other[0]);
        let (rest, more) = (one.skip(1), other.skip(1));
        assert forall|i: int| 0 <= i < at - 1 implies #[trigger] rest[i] == more[i] by {
            assert(one[i + 1] == other[i + 1]);
        }
        law_texts_are_in_dictionary_order(rest, more, at - 1);
    }
}

/// A number is written with the digit of its last place last and no nought
/// before it: ten times as much is the same digits and a nought.
pub proof fn law_numbers_are_written_in_tens(value: int, last: int)
    requires
        0 < value,
        0 <= last < 10,
    ensures
        digits(10 * value + last) == digits(value).push((48 + last) as char),
        digits(last) == seq![(48 + last) as char],
        digits(value)[0] != '0',
    decreases value,
{
    assert((10 * value + last) / 10 == value && (10 * value + last) % 10 == last);
    if value >= 10 {
        law_numbers_are_written_in_tens(value / 10, value % 10);
        assert(digits(value)[0] == digits(value / 10)[0]);
    }
}

/// A padded number has its digits at the end, noughts before them, and the width
/// asked for unless it is wider.
pub proof fn law_padding_goes_before(value: int, width: int)
    requires
        0 <= value,
    ensures
        ({
            let (text, number) = (zero_padded(value, width), digits(value));
            &&& text.len() >= width
            &&& text.len() >= number.len()
            &&& text.len() == width || text == number
            &&& text.skip(text.len() - number.len()) =~= number
            &&& forall|i: int| 0 <= i < text.len() - number.len() ==> #[trigger] text[i] == '0'
        }),
{
    law_decimals_read_back(value);
}

/// Text set on the left begins with itself and ends in spaces, and text set on
/// the right the other way round.
pub proof fn law_texts_are_set_to_a_width(text: Seq<char>, width: int)
    ensures
        ({
            let (left, right) = (set_left(text, width), set_right(text, width));
            let more = left.len() - text.len();
            &&& left.len() == right.len()
            &&& left.len() >= width && left.len() >= text.len()
            &&& more == 0 || left.len() == width
            &&& left.take(text.len() as int) =~= text
            &&& right.skip(more) =~= text
            &&& forall|i: int| text.len() <= i < left.len() ==> #[trigger] left[i] == ' '
            &&& forall|i: int| 0 <= i < more ==> #[trigger] right[i] == ' '
        }),
{
}

/// What decimals say: without the point, the digits are those of the number of
/// tenths or hundredths, and so many of them stand behind the point.
pub proof fn law_decimals_are_the_digits_with_a_point(value: int)
    requires
        0 <= value,
    ensures
        ({
            let (one, two) = (tenths(value), hundredths(value));
            let (whole, most) = (digits(value / 10), digits(value / 100));
            &&& one.len() == whole.len() + 2
            &&& one[whole.len() as int] == '.'
            &&& one.take(whole.len() as int) == whole
            &&& value_of(whole + one.skip(whole.len() + 1int)) == value
            &&& two.len() == most.len() + 3
            &&& two[most.len() as int] == '.'
            &&& two.take(most.len() as int) == most
            &&& value_of(most + two.skip(most.len() + 1int)) == value
        }),
{
    reveal_strlit(".");
    let (whole, most) = (digits(value / 10), digits(value / 100));
    law_decimals_read_back(value / 10);
    law_decimals_read_back(value / 100);
    let (a, b) = (value % 100 / 10, value % 10);
    assert(0 <= a < 10 && 0 <= b < 10);
    let (one, two) = (tenths(value), hundredths(value));
    assert(one.skip(whole.len() + 1int) =~= seq![digit(b)]);
    assert(two.skip(most.len() + 1int) =~= seq![digit(a), digit(b)]);
    assert(one.take(whole.len() as int) =~= whole);
    assert(two.take(most.len() as int) =~= most);
    let first = whole + seq![digit(b)];
    assert(first.drop_last() =~= whole);
    let second = most + seq![digit(a), digit(b)];
    assert(second.drop_last() =~= most + seq![digit(a)]);
    assert((most + seq![digit(a)]).drop_last() =~= most);
    assert(digit(a) as int == 48 + a && digit(b) as int == 48 + b);
    assert(value_of(first) == 10 * (value / 10) + b);
    assert(value_of(most + seq![digit(a)]) == 10 * (value / 100) + a);
    assert(value_of(second) == 10 * (10 * (value / 100) + a) + b);
    assert(value == 100 * (value / 100) + 10 * a + b);
    assert(one =~= whole + "."@ + seq![digit(b)]);
    assert(two =~= most + "."@ + seq![digit(a), digit(b)]);
}

} // verus!
