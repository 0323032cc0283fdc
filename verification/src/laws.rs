//! What holds between reading and rendering.

use vstd::prelude::*;
use vstd::utf8::{
    encode_utf8, encode_utf8_decode_utf8, encode_utf8_valid_utf8, is_ascii_chars,
    is_ascii_chars_encode_utf8,
};
use crate::decimal::{
    decimal, lemma_integer_is_ascii, lemma_integer_is_solid, lemma_parse_decimal, parse_token,
};
use crate::reader::{line_number, numbers_in, numbers_in_contents, numbers_of_lines};
use crate::text::{
    is_line, is_padding, lemma_line_len_bounds, lemma_line_len_prefix, lemma_line_len_terminated,
    lemma_lines_of_terminated, lemma_terminated_is_ascii, lemma_trim_end_padded,
    lemma_trim_padded, lemma_trim_start_padded, line_len, lines_of, terminated, trim,
};
use crate::writer::{notations, rendered, rendered_bytes};

verus! {

/// A decimal notation holds no line feed and neither starts nor ends with
/// white space, so that it is a line of its own that gives its number.
pub proof fn lemma_decimal_line(n: i32)
    ensures
        is_line(decimal(n as int)),
        trim(decimal(n as int)) == decimal(n as int),
        line_number(decimal(n as int)) == Some(n),
{
    lemma_parse_decimal(n);
    lemma_integer_is_solid(decimal(n as int));
    lemma_trim_start_padded(Seq::<char>::empty(), decimal(n as int));
    lemma_trim_end_padded(decimal(n as int), Seq::<char>::empty());
    assert(Seq::<char>::empty() + decimal(n as int) =~= decimal(n as int));
    assert(decimal(n as int) + Seq::<char>::empty() =~= decimal(n as int));
}

/// Reading lines one after another is reading the first ones and then the
/// others: the integers come in the order of their lines, with nothing
/// between them.
pub proof fn lemma_numbers_of_lines_concat(a: Seq<Seq<char>>, b: Seq<Seq<char>>)
    ensures
        numbers_of_lines(a + b) == numbers_of_lines(a) + numbers_of_lines(b),
    decreases a.len(),
{
    if a.len() == 0 {
        assert(a + b =~= b);
        assert(numbers_of_lines(a) + numbers_of_lines(b) =~= numbers_of_lines(b));
    } else {
        assert((a + b)[0] == a[0]);
        assert((a + b).drop_first() =~= a.drop_first() + b);
        lemma_numbers_of_lines_concat(a.drop_first(), b);
        match line_number(a[0]) {
            Some(n) => {
                assert(seq![n] + (numbers_of_lines(a.drop_first()) + numbers_of_lines(b)) =~= (
                seq![n] + numbers_of_lines(a.drop_first())) + numbers_of_lines(b));
            },
            None => {},
        }
    }
}

/// Where every line holds an integer, reading gives one integer for each
/// line: the one on that line.
pub proof fn lemma_numbers_of_valid_lines(lines: Seq<Seq<char>>)
    requires
        forall|i: int| 0 <= i < lines.len() ==> line_number(#[trigger] lines[i]) is Some,
    ensures
        numbers_of_lines(lines).len() == lines.len(),
        forall|i: int|
            0 <= i < lines.len() ==> numbers_of_lines(lines)[i] == line_number(
                #[trigger] lines[i],
            )->0,
    decreases lines.len(),
{
    if lines.len() > 0 {
        let tail = lines.drop_first();
        assert forall|i: int| 0 <= i < tail.len() implies line_number(#[trigger] tail[i]) is Some by {
            assert(tail[i] == lines[i + 1]);
        }
        lemma_numbers_of_valid_lines(tail);
        assert(line_number(lines[0]) is Some);
        assert forall|i: int| 0 <= i < lines.len() implies numbers_of_lines(lines)[i]
            == line_number(#[trigger] lines[i])->0 by {
            if i > 0 {
                assert(tail[i - 1] == lines[i]);
                assert(numbers_of_lines(lines)[i] == numbers_of_lines(tail)[i - 1]);
            }
        }
    }
}

/// A line that holds no integer changes nothing: with it or without it, the
/// same integers are read.
pub proof fn lemma_invalid_line_is_skipped(lines: Seq<Seq<char>>, at: int)
    requires
        0 <= at < lines.len(),
        line_number(lines[at]) is None,
    ensures
        numbers_of_lines(lines.remove(at)) == numbers_of_lines(lines),
{
    let before = lines.take(at);
    let after = lines.skip(at + 1);
    let one = seq![lines[at]];
    assert(lines =~= before + (one + after));
    assert(lines.remove(at) =~= before + after);
    lemma_numbers_of_lines_concat(before, one + after);
    lemma_numbers_of_lines_concat(one, after);
    lemma_numbers_of_lines_concat(before, after);
    assert(one.drop_first() =~= Seq::<Seq<char>>::empty());
    assert(numbers_of_lines(one.drop_first()) =~= Seq::<i32>::empty());
    assert(numbers_of_lines(one) =~= Seq::<i32>::empty());
    assert(numbers_of_lines(one) + numbers_of_lines(after) =~= numbers_of_lines(after));
}

/// A text of lines that each hold one integer, with or without white space
/// around it, reads as those integers, in the order of the lines.
pub proof fn lemma_reads_padded_integers(
    lefts: Seq<Seq<char>>,
    tokens: Seq<Seq<char>>,
    rights: Seq<Seq<char>>,
    values: Seq<i32>,
)
    requires
        lefts.len() == tokens.len() == rights.len(),
        values.len() == tokens.len(),
        forall|i: int| 0 <= i < tokens.len() ==> is_padding(#[trigger] lefts[i]),
        forall|i: int| 0 <= i < tokens.len() ==> is_padding(#[trigger] rights[i]),
        forall|i: int| 0 <= i < tokens.len() ==> parse_token(#[trigger] tokens[i]) == Some(values[i]),
    ensures
        numbers_in(
            terminated(Seq::new(tokens.len(), |i: int| lefts[i] + tokens[i] + rights[i])),
        ) == values,
{
    let lines = Seq::new(tokens.len(), |i: int| lefts[i] + tokens[i] + rights[i]);
    assert forall|i: int| 0 <= i < lines.len() implies is_line(#[trigger] lines[i])
        && line_number(lines[i]) == Some(values[i]) by {
        assert(is_padding(lefts[i]));
        assert(is_padding(rights[i]));
        assert(parse_token(tokens[i]) == Some(values[i]));
        lemma_integer_is_solid(tokens[i]);
        lemma_trim_padded(lefts[i], tokens[i], rights[i]);
    }
    lemma_lines_of_terminated(lines);
    lemma_numbers_of_valid_lines(lines);
    assert forall|i: int| 0 <= i < values.len() implies numbers_of_lines(lines)[i]
        == values[i] by {
        assert(line_number(lines[i]) == Some(values[i]));
    }
    assert(numbers_of_lines(lines) =~= values);
}

/// The line feed behind the last line may be left out: with it or without
/// it the same integers are read, and a text that ends within a line has
/// the very lines that it has with a line feed at its end.
pub proof fn lemma_last_line_feed_is_optional(text: Seq<char>)
    ensures
        numbers_in(text + seq!['\n']) == numbers_in(text),
        text.len() > 0 && text.last() != '\n' ==> lines_of(text + seq!['\n']) == lines_of(text),
    decreases text.len(),
{
    let longer = text + seq!['\n'];
    let n: int = line_len(text);
    let none = Seq::<Seq<char>>::empty();
    lemma_line_len_bounds(text);
    if n < text.len() {
        let rest = text.skip(n + 1);
        let first = seq![text.take(n)];
        lemma_line_len_prefix(text, seq!['\n']);
        assert(longer.skip(n + 1) =~= rest + seq!['\n']);
        assert(longer.take(n) =~= text.take(n));
        lemma_last_line_feed_is_optional(rest);
        lemma_numbers_of_lines_concat(first, lines_of(rest));
        lemma_numbers_of_lines_concat(first, lines_of(rest + seq!['\n']));
        if text.last() != '\n' {
            assert(rest.len() > 0);
            assert(rest.last() == text.last());
        }
    } else {
        assert(longer[n] == '\n');
        lemma_line_len_terminated(text, Seq::<char>::empty());
        assert(text + seq!['\n'] + Seq::<char>::empty() =~= longer);
        assert(longer.take(n) =~= text);
        assert(longer.skip(n + 1) =~= Seq::<char>::empty());
        assert(lines_of(longer.skip(n + 1)) =~= none);
        assert(seq![text] + none =~= seq![text]);
        if text.len() == 0 {
            assert(lines_of(text) =~= none);
            assert(seq![text].drop_first() =~= none);
            assert(trim(text) =~= text);
            assert(line_number(text) is None);
            assert(numbers_of_lines(none) =~= Seq::<i32>::empty());
            assert(numbers_of_lines(seq![text]) =~= Seq::<i32>::empty());
        }
    }
}

/// The notations of integers are lines that give those integers back.
pub proof fn lemma_numbers_of_notations(numbers: Seq<i32>)
    ensures
        numbers_of_lines(notations(numbers)) == numbers,
    decreases numbers.len(),
{
    let lines = notations(numbers);
    if numbers.len() == 0 {
        assert(numbers =~= Seq::<i32>::empty());
    } else {
        lemma_decimal_line(numbers[0]);
        assert(lines[0] == decimal(numbers[0] as int));
        assert(lines.drop_first() =~= notations(numbers.drop_first()));
        lemma_numbers_of_notations(numbers.drop_first());
        assert(seq![numbers[0]] + numbers.drop_first() =~= numbers);
    }
}

/// Reading what was rendered gives back the integers that were rendered,
/// each of them and in their order.
pub proof fn lemma_round_trip(numbers: Seq<i32>)
    ensures
        numbers_in(rendered(numbers)) == numbers,
{
    let lines = notations(numbers);
    assert forall|i: int| 0 <= i < lines.len() implies is_line(#[trigger] lines[i]) by {
        lemma_decimal_line(numbers[i]);
    }
    lemma_lines_of_terminated(lines);
    lemma_numbers_of_notations(numbers);
}

/// The text rendered for some integers is made of ASCII characters, so that
/// its contents in UTF-8 hold one byte for each character.
pub proof fn lemma_rendered_bytes(numbers: Seq<i32>)
    ensures
        is_ascii_chars(rendered(numbers)),
        encode_utf8(rendered(numbers)) == rendered_bytes(numbers),
{
    let lines = notations(numbers);
    assert forall|i: int| 0 <= i < lines.len() implies is_ascii_chars(#[trigger] lines[i]) by {
        lemma_parse_decimal(numbers[i]);
        lemma_integer_is_ascii(decimal(numbers[i] as int));
    }
    lemma_terminated_is_ascii(lines);
    is_ascii_chars_encode_utf8(rendered(numbers));
    assert(encode_utf8(rendered(numbers)) =~= rendered_bytes(numbers));
}

/// Reading the contents written for some integers succeeds and gives
/// those integers back.
pub proof fn lemma_round_trip_contents(numbers: Seq<i32>)
    ensures
        numbers_in_contents(rendered_bytes(numbers)) == Some(numbers),
{
    lemma_rendered_bytes(numbers);
    encode_utf8_valid_utf8(rendered(numbers));
    encode_utf8_decode_utf8(rendered(numbers));
    lemma_round_trip(numbers);
}

/// An empty text holds no integers, and no integers render to an empty
/// text; the same holds of the contents of a file.
pub proof fn lemma_empty()
    ensures
        numbers_in(Seq::<char>::empty()) == Seq::<i32>::empty(),
        rendered(Seq::<i32>::empty()) == Seq::<char>::empty(),
        numbers_in_contents(Seq::<u8>::empty()) == Some(Seq::<i32>::empty()),
        rendered_bytes(Seq::<i32>::empty()) == Seq::<u8>::empty(),
{
    assert(notations(Seq::<i32>::empty()) =~= Seq::<Seq<char>>::empty());
    assert(rendered_bytes(Seq::<i32>::empty()) =~= Seq::<u8>::empty());
    lemma_round_trip_contents(Seq::<i32>::empty());
}

} // verus!
