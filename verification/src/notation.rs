//! The textual form of a layout: numbers separated by commas, with blanks
//! allowed around each number.
use vstd::prelude::*;

verus! {

/// Whether a character is white space.
pub open spec fn spec_is_blank(c: char) -> bool {
    ||| '\u{9}' <= c <= '\u{d}'
    ||| c == ' '
    ||| c == '\u{85}'
    ||| c == '\u{a0}'
    ||| c == '\u{1680}'
    ||| '\u{2000}' <= c <= '\u{200a}'
    ||| c == '\u{2028}'
    ||| c == '\u{2029}'
    ||| c == '\u{202f}'
    ||| c == '\u{205f}'
    ||| c == '\u{3000}'
}

/// Whether a character is white space.
#[verifier::when_used_as_spec(spec_is_blank)]
pub fn is_blank(c: char) -> (b: bool)
    ensures
        b == spec_is_blank(c),
{
    ('\u{9}' <= c && c <= '\u{d}') || c == ' ' || c == '\u{85}' || c == '\u{a0}' || c == '\u{1680}'
        || ('\u{2000}' <= c && c <= '\u{200a}') || c == '\u{2028}' || c == '\u{2029}' || c
        == '\u{202f}' || c == '\u{205f}' || c == '\u{3000}'
}

/// Whether a character is a decimal digit.
pub open spec fn is_digit(c: char) -> bool {
    '0' <= c <= '9'
}

/// The number that a decimal digit stands for.
pub open spec fn digit_value(c: char) -> int {
    c as int - '0' as int
}

/// The character of a decimal digit.
pub open spec fn digit_char(digit: int) -> char {
    if digit == 0 {
        '0'
    } else if digit == 1 {
        '1'
    } else if digit == 2 {
        '2'
    } else if digit == 3 {
        '3'
    } else if digit == 4 {
        '4'
    } else if digit == 5 {
        '5'
    } else if digit == 6 {
        '6'
    } else if digit == 7 {
        '7'
    } else if digit == 8 {
        '8'
    } else {
        '9'
    }
}

/// The decimal digits of a number, without leading zeros.
pub open spec fn numeral(n: int) -> Seq<char>
    decreases n,
{
    if n < 10 {
        seq![digit_char(n)]
    } else {
        numeral(n / 10).push(digit_char(n % 10))
    }
}

/// The pieces of a text between its commas.
pub open spec fn fields(text: Seq<char>) -> Seq<Seq<char>>
    decreases text.len(),
{
    if text.len() == 0 {
        seq![Seq::empty()]
    } else {
        let before = fields(text.drop_last());
        if text.last() == ',' {
            before.push(Seq::empty())
        } else {
            before.update(before.len() - 1, before.last().push(text.last()))
        }
    }
}

/// Whether a character parts two words: a space or a line feed.
pub open spec fn parts_words(c: char) -> bool {
    c == ' ' || c == '\n'
}

/// The words of a text: its pieces between spaces and line feeds.
pub open spec fn words(text: Seq<char>) -> Seq<Seq<char>>
    decreases text.len(),
{
    if text.len() == 0 {
        seq![Seq::empty()]
    } else {
        let before = words(text.drop_last());
        if parts_words(text.last()) {
            before.push(Seq::empty())
        } else {
            before.update(before.len() - 1, before.last().push(text.last()))
        }
    }
}

/// A text without the blanks at its end.
pub open spec fn trim_end(text: Seq<char>) -> Seq<char>
    decreases text.len(),
{
    if text.len() > 0 && is_blank(text.last()) {
        trim_end(text.drop_last())
    } else {
        text
    }
}

/// A text without the blanks at its start.
pub open spec fn trim_start(text: Seq<char>) -> Seq<char>
    decreases text.len(),
{
    if text.len() > 0 && is_blank(text.first()) {
        trim_start(text.drop_first())
    } else {
        text
    }
}

/// The number that a text of decimal digits spells, or `None` if a
/// character is no digit. The empty text spells 0.
pub open spec fn decimal(digits: Seq<char>) -> Option<int>
    decreases digits.len(),
{
    if digits.len() == 0 {
        Some(0)
    } else if !is_digit(digits.last()) {
        None
    } else {
        match decimal(digits.drop_last()) {
            Some(value) => Some(value * 10 + digit_value(digits.last())),
            None => None,
        }
    }
}

/// A text without the plus sign that it may start with.
pub open spec fn unsigned(text: Seq<char>) -> Seq<char> {
    if text.len() > 0 && text.first() == '+' {
        text.drop_first()
    } else {
        text
    }
}

/// The number from 0 to 255 that a field spells: blanks, an optional plus
/// sign, one decimal digit or more, blanks.
pub open spec fn number(field: Seq<char>) -> Option<u8> {
    let digits = unsigned(trim_start(trim_end(field)));
    if digits.len() == 0 {
        None
    } else {
        match decimal(digits) {
            Some(value) => if value <= 255 {
                Some(value as u8)
            } else {
                None
            },
            None => None,
        }
    }
}

/// The numbers that a text lists, or `None` if one of its fields spells
/// no number.
pub open spec fn numbers(text: Seq<char>) -> Option<Seq<u8>> {
    let pieces = fields(text);
    if forall|i: int| 0 <= i < pieces.len() ==> (#[trigger] number(pieces[i])) is Some {
        Some(Seq::new(pieces.len(), |i: int| number(pieces[i])->0))
    } else {
        None
    }
}

/// The text of a decimal digit.
fn digit_text(digit: u8) -> (text: &'static str)
    requires
        digit < 10,
    ensures
        text@ == seq![digit_char(digit as int)],
{
    proof {
        reveal_strlit("0");
        reveal_strlit("1");
        reveal_strlit("2");
        reveal_strlit("3");
        reveal_strlit("4");
        reveal_strlit("5");
        reveal_strlit("6");
        reveal_strlit("7");
        reveal_strlit("8");
        reveal_strlit("9");
    }
    let text = match digit {
        0 => "0",
        1 => "1",
        2 => "2",
        3 => "3",
        4 => "4",
        5 => "5",
        6 => "6",
        7 => "7",
        8 => "8",
        _ => "9",
    };
    assert(text@ =~= seq![digit_char(digit as int)]);
    text
}

/// Writes the decimal digits of a number at the end of a text.
pub fn write_number(text: &mut String, n: u8)
    ensures
        final(text)@ == old(text)@ + numeral(n as int),
{
    if n >= 100 {
        text.append(digit_text(n / 100));
    }
    if n >= 10 {
        text.append(digit_text((n / 10) % 10));
    }
    text.append(digit_text(n % 10));
    proof {
        let n = n as int;
        if n >= 100 {
            assert(numeral(n / 100) =~= seq![digit_char(n / 100)]);
            assert(numeral(n / 10) =~= seq![digit_char(n / 100), digit_char((n / 10) % 10)]);
            assert(numeral(n) =~= seq![
                digit_char(n / 100),
                digit_char((n / 10) % 10),
                digit_char(n % 10),
            ]);
        } else if n >= 10 {
            assert(numeral(n / 10) =~= seq![digit_char(n / 10)]);
            assert(numeral(n) =~= seq![digit_char((n / 10) % 10), digit_char(n % 10)]);
        }
        assert(text@ =~= old(text)@ + numeral(n));
    }
}

/// A text has one field more than it has commas.
pub proof fn lemma_fields_nonempty(text: Seq<char>)
    ensures
        fields(text).len() >= 1,
    decreases text.len(),
{
    if text.len() > 0 {
        lemma_fields_nonempty(text.drop_last());
    }
}

/// Splits a text at its commas.
pub fn split_fields(text: &str) -> (pieces: Vec<Vec<char>>)
    ensures
        pieces@.len() == fields(text@).len(),
        forall|i: int| 0 <= i < pieces@.len() ==> (#[trigger] pieces@[i])@ == fields(text@)[i],
{
    broadcast use vstd::string::group_string_axioms;

    let mut pieces: Vec<Vec<char>> = Vec::new();
    let mut current: Vec<char> = Vec::new();
    let ghost mut seen: Seq<char> = Seq::empty();
    for c in it: text.chars()
        invariant
            it.seq() == text@,
            seen == text@.take(it.index()),
            pieces@.len() + 1 == fields(seen).len(),
            forall|i: int| 0 <= i < pieces@.len() ==> (#[trigger] pieces@[i])@ == fields(seen)[i],
            current@ == fields(seen).last(),
    {
        proof {
            let longer = text@.take(it.index() + 1);
            assert(longer.drop_last() =~= seen);
            assert(longer.last() == c);
            lemma_fields_nonempty(seen);
            seen = longer;
        }
        if c == ',' {
            pieces.push(current);
            current = Vec::new();
        } else {
            current.push(c);
        }
    }
    proof {
        assert(text@.take(text@.len() as int) =~= text@);
    }
    pieces.push(current);
    pieces
}

/// A text has one word more than it has spaces and line feeds.
pub proof fn lemma_words_nonempty(text: Seq<char>)
    ensures
        words(text).len() >= 1,
    decreases text.len(),
{
    if text.len() > 0 {
        lemma_words_nonempty(text.drop_last());
    }
}

/// Characters that part no words, written after a text, make its last
/// word longer.
pub proof fn lemma_words_grow(text: Seq<char>, more: Seq<char>)
    requires
        forall|i: int| 0 <= i < more.len() ==> !parts_words(#[trigger] more[i]),
    ensures
        words(text).len() >= 1,
        words(text + more) == words(text).update(
            words(text).len() - 1,
            words(text).last() + more,
        ),
    decreases more.len(),
{
    lemma_words_nonempty(text);
    if more.len() == 0 {
        assert(text + more =~= text);
        assert(words(text).last() + more =~= words(text).last());
        assert(words(text).update(words(text).len() - 1, words(text).last()) =~= words(text));
    } else {
        let shorter = more.drop_last();
        lemma_words_grow(text, shorter);
        assert((text + more).drop_last() =~= text + shorter);
        assert((text + more).last() == more.last());
        assert(!parts_words(more[more.len() - 1]));
        assert((words(text).last() + shorter).push(more.last()) =~= words(text).last() + more);
        assert(words(text + more) =~= words(text).update(
            words(text).len() - 1,
            words(text).last() + more,
        ));
    }
}

/// The digits of a number part no words.
pub proof fn lemma_numeral_is_a_word(n: int)
    requires
        0 <= n,
    ensures
        numeral(n).len() >= 1,
        forall|i: int| 0 <= i < numeral(n).len() ==> is_digit(#[trigger] numeral(n)[i]),
    decreases n,
{
    if n >= 10 {
        lemma_numeral_is_a_word(n / 10);
    }
}

/// The digits of a number spell the number.
pub proof fn lemma_numeral_spells(n: int)
    requires
        0 <= n,
    ensures
        decimal(numeral(n)) == Some(n),
        n <= 255 ==> number(numeral(n)) == Some(n as u8),
    decreases n,
{
    lemma_numeral_is_a_word(n);
    let text = numeral(n);
    if n < 10 {
        assert(text.drop_last() =~= Seq::<char>::empty());
        assert(decimal(text.drop_last()) == Some(0int));
        assert(digit_value(text.last()) == n);
    } else {
        lemma_numeral_spells(n / 10);
        assert(text.drop_last() =~= numeral(n / 10));
        assert(digit_value(text.last()) == n % 10);
    }
    assert(is_digit(text.last()));
    assert(is_digit(text.first()));
    assert(trim_end(text) == text);
    assert(trim_start(text) == text);
    assert(unsigned(text) == text);
}

/// A text of digits spells a number that is not negative, and no less
/// than what any of its beginnings spells.
pub proof fn lemma_decimal_grows(digits: Seq<char>, k: int)
    requires
        0 <= k <= digits.len(),
        decimal(digits) is Some,
    ensures
        decimal(digits.take(k)) matches Some(part) && 0 <= part <= decimal(digits)->0,
    decreases digits.len(),
{
    if digits.len() == 0 {
        assert(digits.take(k) =~= digits);
    } else if k == digits.len() {
        assert(digits.take(k) =~= digits);
        lemma_decimal_grows(digits.drop_last(), k - 1);
    } else {
        assert(digits.drop_last().take(k) =~= digits.take(k));
        lemma_decimal_grows(digits.drop_last(), k);
    }
}

/// The number from 0 to 255 that a field spells, if it spells one.
pub fn parse_number(field: &Vec<char>) -> (r: Option<u8>)
    ensures
        r == number(field@),
{
    let mut end: usize = field.len();
    assert(field@.take(end as int) =~= field@);
    while end > 0 && is_blank(field[end - 1])
        invariant
            end <= field@.len(),
            trim_end(field@) == trim_end(field@.take(end as int)),
        decreases end,
    {
        assert(field@.take(end as int).drop_last() =~= field@.take(end - 1));
        end -= 1;
    }
    let ghost trimmed = field@.take(end as int);
    assert(trim_end(field@) == trimmed);
    let mut start: usize = 0;
    assert(field@.subrange(0, end as int) =~= trimmed);
    while start < end && is_blank(field[start])
        invariant
            start <= end <= field@.len(),
            trim_start(trimmed) == trim_start(field@.subrange(start as int, end as int)),
        decreases end - start,
    {
        assert(field@.subrange(start as int, end as int).drop_first() =~= field@.subrange(
            start + 1,
            end as int,
        ));
        start += 1;
    }
    let ghost bare = field@.subrange(start as int, end as int);
    assert(trim_start(trimmed) == bare);
    if start < end && field[start] == '+' {
        assert(bare.drop_first() =~= field@.subrange(start + 1, end as int));
        start += 1;
    }
    let ghost digits = field@.subrange(start as int, end as int);
    assert(digits == unsigned(bare));
    if start == end {
        return None;
    }
    let mut value: u32 = 0;
    let mut i: usize = start;
    assert(digits.take(0) =~= Seq::<char>::empty());
    while i < end
        invariant
            start <= i <= end <= field@.len(),
            digits == field@.subrange(start as int, end as int),
            digits == unsigned(trim_start(trim_end(field@))),
            digits.len() > 0,
            decimal(digits.take(i - start)) == Some(value as int),
            value <= 255,
        decreases end - i,
    {
        let c = field[i];
        proof {
            assert(digits.take(i - start + 1).drop_last() =~= digits.take(i - start));
            assert(digits.take(i - start + 1).last() == c);
            if decimal(digits) is Some {
                lemma_decimal_grows(digits, i - start + 1);
            }
        }
        if !('0' <= c && c <= '9') {
            return None;
        }
        value = value * 10 + (c as u32 - '0' as u32);
        if value > 255 {
            return None;
        }
        i += 1;
    }
    assert(digits.take(end - start) =~= digits);
    Some(value as u8)
}

/// The numbers that a text lists, or `None` if one of its fields spells
/// no number from 0 to 255.
pub fn parse_numbers(text: &str) -> (r: Option<Vec<u8>>)
    ensures
        match r {
            Some(list) => numbers(text@) == Some(list@),
            None => numbers(text@) is None,
        },
{
    let pieces = split_fields(text);
    let mut list: Vec<u8> = Vec::new();
    let mut i: usize = 0;
    while i < pieces.len()
        invariant
            pieces@.len() == fields(text@).len(),
            forall|k: int| 0 <= k < pieces@.len() ==> (#[trigger] pieces@[k])@ == fields(text@)[k],
            i <= pieces@.len(),
            list@.len() == i,
            forall|k: int| 0 <= k < i ==> number(fields(text@)[k]) == Some(#[trigger] list@[k]),
        decreases pieces@.len() - i,
    {
        match parse_number(&pieces[i]) {
            Some(value) => list.push(value),
            None => {
                assert(number(fields(text@)[i as int]) is None);
                return None;
            },
        }
        i += 1;
    }
    proof {
        let pieces = fields(text@);
        assert forall|k: int| 0 <= k < pieces.len() implies (#[trigger] number(pieces[k])) is Some by {
            assert(number(fields(text@)[k]) == Some(list@[k]));
        }
        assert(list@ =~= Seq::new(pieces.len(), |k: int| number(pieces[k])->0));
    }
    Some(list)
}

} // verus!
