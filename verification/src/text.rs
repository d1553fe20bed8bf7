//! Text helpers: characters, lines, words and decimal numbers.

use vstd::prelude::*;
use vstd::utf8::{decode_utf8, valid_utf8};

verus! {

/// Calls `std::str::from_utf8`: the bytes are taken as text exactly when they
/// are well-formed UTF-8, and the text then holds the characters they encode.
#[verifier::external_body]
pub(crate) fn utf8_text(bytes: &[u8]) -> (text: Option<&str>)
    ensures
        text is Some <==> valid_utf8(bytes@),
        text matches Some(t) ==> t@ == decode_utf8(bytes@),
{
    std::str::from_utf8(bytes).ok()
}

/// `String::push` appends one character.
pub assume_specification[ String::push ](s: &mut String, ch: char)
    ensures
        final(s)@ == old(s)@.push(ch),
;

/// Whether `c` has the Unicode property White_Space.
pub open spec fn is_space(c: char) -> bool {
    ||| '\u{9}' <= c <= '\u{d}'
    ||| c == ' '
    ||| c == '\u{85}'
    ||| c == '\u{a0}'
    ||| c == '\u{1680}'
    ||| '\u{2000}' <= c <= '\u{200a}'
    ||| c == '\u{2028}'
    ||| c == '\u{2029}'
    ||| c == '\u{202f}'
    ||| c == '\u{205f}'
    ||| c == '\u{3000}'
}

/// The length of the longest prefix of white space, or of anything else.
pub open spec fn span(text: Seq<char>, space: bool) -> nat
    decreases text.len(),
{
    if text.len() > 0 && is_space(text[0]) == space {
        1 + span(text.drop_first(), space)
    } else {
        0
    }
}

/// The words of `text`: its longest runs without white space, in order.
pub open spec fn words(text: Seq<char>) -> Seq<Seq<char>>
    decreases text.len(),
{
    let rest = text.skip(span(text, true) as int);
    let len = span(rest, false);
    if len == 0 {
        seq![]
    } else {
        proof {
            lemma_span_bound(text, true);
            lemma_span_bound(rest, false);
        }
        seq![rest.take(len as int)] + words(rest.skip(len as int))
    }
}

/// The length of the first line of `text`, without the line feed.
pub open spec fn line_len(text: Seq<char>) -> nat
    decreases text.len(),
{
    if text.len() > 0 && text[0] != '\n' {
        1 + line_len(text.drop_first())
    } else {
        0
    }
}

/// The lines of `text`, each up to a line feed or the end.
pub open spec fn lines(text: Seq<char>) -> Seq<Seq<char>>
    decreases text.len(),
{
    let len = line_len(text);
    if text.len() == 0 {
        seq![]
    } else if len >= text.len() {
        seq![text]
    } else {
        seq![text.take(len as int)] + lines(text.skip(len as int + 1))
    }
}

/// The decimal digits of `number`, without leading zeros.
pub open spec fn decimal(number: nat) -> Seq<char>
    decreases number,
{
    let digit = (('0' as u8) + number % 10) as char;
    if number < 10 {
        seq![digit]
    } else {
        decimal(number / 10).push(digit)
    }
}

pub proof fn lemma_span_bound(text: Seq<char>, space: bool)
    ensures
        span(text, space) <= text.len(),
    decreases text.len(),
{
    if text.len() > 0 {
        lemma_span_bound(text.drop_first(), space);
    }
}

/// Whether `c` is white space.
pub fn is_space_char(c: char) -> (space: bool)
    ensures
        space == is_space(c),
{
    ('\u{9}' <= c && c <= '\u{d}') || c == ' ' || c == '\u{85}' || c == '\u{a0}' || c == '\u{1680}'
        || ('\u{2000}' <= c && c <= '\u{200a}') || c == '\u{2028}' || c == '\u{2029}' || c
        == '\u{202f}' || c == '\u{205f}' || c == '\u{3000}'
}

/// The characters of `text`.
pub fn chars_of(text: &str) -> (chars: Vec<char>)
    ensures
        chars@ == text@,
{
    let mut chars: Vec<char> = Vec::new();
    for c in it: text.chars()
        invariant
            chars@ == it.seq().take(it.index()),
            it.seq() == text@,
    {
        chars.push(c);
    }
    chars
}

/// The text made of `chars[start..end]`.
pub fn string_of(chars: &Vec<char>, start: usize, end: usize) -> (text: String)
    requires
        start <= end <= chars@.len(),
    ensures
        text@ == chars@.subrange(start as int, end as int),
{
    let mut text = String::new();
    let mut i: usize = start;
    while i < end
        invariant
            start <= i <= end <= chars@.len(),
            text@ == chars@.subrange(start as int, i as int),
        decreases end - i,
    {
        text.push(chars[i]);
        i += 1;
        assert(text@ =~= chars@.subrange(start as int, i as int));
    }
    text
}

/// Whether `chars[start..end]` reads `text`.
pub fn reads(chars: &Vec<char>, start: usize, end: usize, text: &Vec<char>) -> (same: bool)
    requires
        start <= end <= chars@.len(),
    ensures
        same == (chars@.subrange(start as int, end as int) == text@),
{
    if end - start != text.len() {
        return false;
    }
    let mut i: usize = 0;
    while i < text.len()
        invariant
            start <= end <= chars@.len(),
            end - start == text@.len(),
            i <= text@.len(),
            forall|j: int| 0 <= j < i ==> chars@[start + j] == text@[j],
        decreases text@.len() - i,
    {
        if chars[start + i] != text[i] {
            assert(chars@.subrange(start as int, end as int)[i as int] != text@[i as int]);
            return false;
        }
        i += 1;
    }
    assert(chars@.subrange(start as int, end as int) =~= text@);
    true
}

/// The end of the longest stretch of white space, or of anything else, that
/// begins at `from` and does not pass `end`.
fn span_end(chars: &Vec<char>, from: usize, end: usize, space: bool) -> (stop: usize)
    requires
        from <= end <= chars@.len(),
    ensures
        from <= stop <= end,
        stop == from + span(chars@.subrange(from as int, end as int), space),
{
    let mut i: usize = from;
    while i < end && is_space_char(chars[i]) == space
        invariant
            from <= i <= end <= chars@.len(),
            span(chars@.subrange(from as int, end as int), space) == i - from + span(
                chars@.subrange(i as int, end as int),
                space,
            ),
        decreases end - i,
    {
        assert(chars@.subrange(i as int, end as int).drop_first() =~= chars@.subrange(
            i + 1,
            end as int,
        ));
        i += 1;
    }
    i
}

/// The first word of `chars[from..end]`, as its bounds.
pub fn next_word(chars: &Vec<char>, from: usize, end: usize) -> (word: Option<(usize, usize)>)
    requires
        from <= end <= chars@.len(),
    ensures
        match word {
            Some((start, stop)) => {
                &&& from <= start < stop <= end
                &&& words(chars@.subrange(from as int, end as int)) == seq![
                    chars@.subrange(start as int, stop as int),
                ] + words(chars@.subrange(stop as int, end as int))
            },
            None => words(chars@.subrange(from as int, end as int)).len() == 0,
        },
{
    let start: usize = span_end(chars, from, end, true);
    let stop: usize = span_end(chars, start, end, false);
    let ghost text = chars@.subrange(from as int, end as int);
    assert(text.skip(start - from) =~= chars@.subrange(start as int, end as int));
    if start == stop {
        return None;
    }
    assert(text.skip(start - from).take(stop - start) =~= chars@.subrange(
        start as int,
        stop as int,
    ));
    assert(text.skip(start - from).skip(stop - start) =~= chars@.subrange(
        stop as int,
        end as int,
    ));
    Some((start, stop))
}

/// The end of the line that begins at `from`: the next line feed, or the end.
pub fn line_end(chars: &Vec<char>, from: usize) -> (stop: usize)
    requires
        from <= chars@.len(),
    ensures
        from <= stop <= chars@.len(),
        stop == from + line_len(chars@.skip(from as int)),
{
    let mut i: usize = from;
    while i < chars.len() && chars[i] != '\n'
        invariant
            from <= i <= chars@.len(),
            line_len(chars@.skip(from as int)) == i - from + line_len(chars@.skip(i as int)),
        decreases chars@.len() - i,
    {
        assert(chars@.skip(i as int).drop_first() =~= chars@.skip(i + 1));
        i += 1;
    }
    i
}

/// Appends the decimal digits of `number`.
pub fn push_decimal(text: &mut String, number: u8)
    ensures
        final(text)@ == old(text)@ + decimal(number as nat),
    decreases number,
{
    if number >= 10 {
        push_decimal(text, number / 10);
    }
    text.push(('0' as u8 + number % 10) as char);
    assert(text@ =~= old(text)@ + decimal(number as nat));
}

/// White space is these characters and no others.
pub proof fn law_white_space(c: char)
    ensures
        c as u32 <= 0x7f ==> (is_space(c) <==> c == ' ' || c == '\t' || c == '\n' || c == '\r' || c
            == '\u{b}' || c == '\u{c}'),
        c as u32 > 0x7f ==> (is_space(c) <==> c as u32 == 0x85 || c as u32 == 0xa0 || c as u32
            == 0x1680 || 0x2000 <= c as u32 <= 0x200a || c as u32 == 0x2028 || c as u32 == 0x2029
            || c as u32 == 0x202f || c as u32 == 0x205f || c as u32 == 0x3000),
{
}

/// Whether no character of `text` is white space.
pub open spec fn is_solid(text: Seq<char>) -> bool {
    forall|i: int| 0 <= i < text.len() ==> !is_space(#[trigger] text[i])
}

proof fn lemma_span(text: Seq<char>, space: bool)
    ensures
        span(text, space) <= text.len(),
        forall|i: int| 0 <= i < span(text, space) ==> is_space(#[trigger] text[i]) == space,
        span(text, space) < text.len() ==> is_space(text[span(text, space) as int]) != space,
    decreases text.len(),
{
    if text.len() > 0 && is_space(text[0]) == space {
        let rest = text.drop_first();
        lemma_span(rest, space);
        assert forall|i: int| 0 <= i < span(text, space) implies is_space(#[trigger] text[i])
            == space by {
            if i > 0 {
                assert(text[i] == rest[i - 1]);
            }
        }
        if span(text, space) < text.len() {
            assert(text[span(text, space) as int] == rest[span(rest, space) as int]);
        }
    }
}

proof fn lemma_span_ends(text: Seq<char>, space: bool, end: int)
    requires
        0 <= end <= text.len(),
        forall|i: int| 0 <= i < end ==> is_space(#[trigger] text[i]) == space,
        end < text.len() ==> is_space(text[end]) != space,
    ensures
        span(text, space) == end,
{
    lemma_span(text, space);
    let found = span(text, space) as int;
    if found < end {
        assert(is_space(text[found]) == space);
    }
    if end < found {
        assert(is_space(text[end]) == space);
    }
}

/// What has no white space in it is one word, whole.
pub proof fn law_solid_text_is_one_word(word: Seq<char>)
    requires
        word.len() > 0,
        is_solid(word),
    ensures
        words(word) == seq![word],
{
    lemma_span_ends(word, true, 0);
    assert(word.skip(0) =~= word);
    lemma_span_ends(word, false, word.len() as int);
    assert(word.take(word.len() as int) =~= word);
    let rest = word.skip(word.len() as int);
    lemma_span_ends(rest, true, 0);
    assert(rest.skip(0) =~= rest);
    lemma_span_ends(rest, false, 0);
    assert(words(rest) =~= seq![]);
    assert(words(word) =~= seq![word]);
}

/// Without characters there are no words.
pub proof fn law_empty_text_has_no_words()
    ensures
        words(Seq::empty()) == Seq::<Seq<char>>::empty(),
{
    let text = Seq::<char>::empty();
    lemma_span_ends(text, true, 0);
    assert(text.skip(0) =~= text);
    lemma_span_ends(text, false, 0);
}

/// White space parts words and is part of none.
pub proof fn law_white_space_parts_words(head: Seq<char>, space: char, rest: Seq<char>)
    requires
        is_space(space),
    ensures
        words(head + seq![space] + rest) == words(head) + words(rest),
    decreases head.len(),
{
    let text = head + seq![space] + rest;
    lemma_span(head, true);
    lemma_span(rest, true);
    let start = span(head, true) as int;
    if start == head.len() {
        let skipped = span(rest, true) as int;
        assert forall|i: int| 0 <= i < start + 1 + skipped implies is_space(#[trigger] text[i]) by {
            if i < start {
                assert(text[i] == head[i]);
            } else if i > start {
                assert(text[i] == rest[i - start - 1]);
            }
        }
        if start + 1 + skipped < text.len() {
            assert(text[start + 1 + skipped] == rest[skipped]);
        }
        lemma_span_ends(text, true, start + 1 + skipped);
        assert(text.skip(start + 1 + skipped) =~= rest.skip(skipped));
        let none = head.skip(start);
        lemma_span_ends(none, false, 0);
        assert(words(head) =~= seq![]);
        assert(words(text) =~= words(rest));
        assert(words(head) + words(rest) =~= words(rest));
    } else {
        assert forall|i: int| 0 <= i < start implies is_space(#[trigger] text[i]) by {
            assert(text[i] == head[i]);
        }
        assert(text[start] == head[start]);
        lemma_span_ends(text, true, start);
        let tail = head.skip(start);
        let after = text.skip(start);
        lemma_span(tail, false);
        let len = span(tail, false) as int;
        assert(tail[0] == head[start]);
        if len == 0 {
            assert(is_space(tail[0]));
        }
        assert(after =~= tail + seq![space] + rest);
        assert forall|i: int| 0 <= i < len implies !is_space(#[trigger] after[i]) by {
            assert(after[i] == tail[i]);
        }
        if len < tail.len() {
            assert(after[len] == tail[len]);
        } else {
            assert(after[len] == space);
        }
        lemma_span_ends(after, false, len);
        assert(after.take(len) =~= tail.take(len));
        assert(after.skip(len) =~= tail.skip(len) + seq![space] + rest);
        law_white_space_parts_words(tail.skip(len), space, rest);
        assert(words(text) =~= words(head) + words(rest));
    }
}

/// Whether `text` is within one line.
pub open spec fn is_one_line(text: Seq<char>) -> bool {
    forall|i: int| 0 <= i < text.len() ==> #[trigger] text[i] != '\n'
}

proof fn lemma_line_ends(text: Seq<char>, end: int)
    requires
        0 <= end <= text.len(),
        forall|i: int| 0 <= i < end ==> #[trigger] text[i] != '\n',
        end < text.len() ==> text[end] == '\n',
    ensures
        line_len(text) == end,
    decreases text.len(),
{
    if end > 0 {
        let rest = text.drop_first();
        assert(text[0] != '\n');
        assert forall|i: int| 0 <= i < end - 1 implies #[trigger] rest[i] != '\n' by {
            assert(rest[i] == text[i + 1]);
        }
        lemma_line_ends(rest, end - 1);
    }
}

/// A text without line feeds is one line, whole; without characters there is
/// none.
pub proof fn law_last_line(line: Seq<char>)
    requires
        is_one_line(line),
    ensures
        line.len() > 0 ==> lines(line) == seq![line],
        line.len() == 0 ==> lines(line) == Seq::<Seq<char>>::empty(),
{
    lemma_line_ends(line, line.len() as int);
}

/// A line feed ends a line and is part of none.
pub proof fn law_line_feed_parts_lines(line: Seq<char>, rest: Seq<char>)
    requires
        is_one_line(line),
    ensures
        lines(line + seq!['\n'] + rest) == seq![line] + lines(rest),
{
    let text = line + seq!['\n'] + rest;
    assert forall|i: int| 0 <= i < line.len() implies #[trigger] text[i] != '\n' by {
        assert(text[i] == line[i]);
    }
    lemma_line_ends(text, line.len() as int);
    assert(text.take(line.len() as int) =~= line);
    assert(text.skip(line.len() as int + 1) =~= rest);
}

/// The number that a text of decimal digits spells.
pub open spec fn spelled(text: Seq<char>) -> int
    decreases text.len(),
{
    if text.len() == 0 {
        0
    } else {
        10 * spelled(text.drop_last()) + (text.last() as int - '0' as int)
    }
}

/// Whether `text` is `number` in decimal digits, without leading zeros.
pub open spec fn is_numeral(text: Seq<char>, number: nat) -> bool {
    &&& text.len() > 0
    &&& forall|i: int| 0 <= i < text.len() ==> '0' <= #[trigger] text[i] <= '9'
    &&& text[0] == '0' ==> text.len() == 1
    &&& spelled(text) == number
}

/// A number has one numeral, and that is its decimal digits.
pub proof fn law_decimal_is_the_numeral(text: Seq<char>, number: nat)
    ensures
        is_numeral(text, number) <==> text == decimal(number),
{
    lemma_decimal_is_numeral(number);
    if is_numeral(text, number) {
        lemma_numeral_is_decimal(text, number);
    }
}

proof fn lemma_decimal_is_numeral(number: nat)
    ensures
        is_numeral(decimal(number), number),
        number > 0 ==> decimal(number)[0] != '0',
    decreases number,
{
    let text = decimal(number);
    let digit = (('0' as u8) + number % 10) as char;
    assert(digit as int == '0' as int + number % 10);
    assert(text.last() == digit);
    if number < 10 {
        assert(spelled(text.drop_last()) == 0);
    } else {
        lemma_decimal_is_numeral(number / 10);
        let head = decimal(number / 10);
        assert(text.drop_last() =~= head);
        assert(text[0] == head[0]);
        assert forall|i: int| 0 <= i < text.len() implies '0' <= #[trigger] text[i] <= '9' by {
            if i < head.len() {
                assert(text[i] == head[i]);
            }
        }
    }
}

proof fn lemma_numeral_is_decimal(text: Seq<char>, number: nat)
    requires
        is_numeral(text, number),
    ensures
        text == decimal(number),
        text[0] != '0' ==> number > 0,
    decreases text.len(),
{
    let digit = text.last() as int - '0' as int;
    let head = text.drop_last();
    assert(text[text.len() - 1] == text.last());
    assert(0 <= digit <= 9);
    if text.len() == 1 {
        assert(spelled(head) == 0);
        assert(number == digit);
        assert(text =~= decimal(number));
    } else {
        assert forall|i: int| 0 <= i < head.len() implies '0' <= #[trigger] head[i] <= '9' by {
            assert(head[i] == text[i]);
        }
        assert(head[0] == text[0]);
        lemma_spelled_is_natural(head);
        lemma_numeral_is_decimal(head, spelled(head) as nat);
        assert(number / 10 == spelled(head) && number % 10 == digit);
        assert(text =~= decimal(number));
    }
}

proof fn lemma_spelled_is_natural(text: Seq<char>)
    requires
        forall|i: int| 0 <= i < text.len() ==> '0' <= #[trigger] text[i] <= '9',
    ensures
        spelled(text) >= 0,
    decreases text.len(),
{
    if text.len() > 0 {
        let head = text.drop_last();
        assert forall|i: int| 0 <= i < head.len() implies '0' <= #[trigger] head[i] <= '9' by {
            assert(head[i] == text[i]);
        }
        assert(text[text.len() - 1] == text.last());
        lemma_spelled_is_natural(head);
    }
}

} // verus!
