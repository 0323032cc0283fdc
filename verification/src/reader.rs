//! Reading a text of lines into the integers that it holds.

use vstd::prelude::*;
use vstd::string::StringSliceAdditionalSpecFns;
use vstd::utf8::{decode_utf8, encode_utf8_decode_utf8, valid_utf8};
use crate::decimal::{parse_span, parse_token};
use crate::text::{chars_of, line_end, lines_of, trim, trim_bounds};

verus! {

/// What a line gives: the integer that it parses to once the white space
/// around it is taken away, or nothing.
pub open spec fn line_number(line: Seq<char>) -> Option<i32> {
    parse_token(trim(line))
}

/// The integers that `lines` give, in the order of the lines. A line that
/// gives none leaves no trace.
pub open spec fn numbers_of_lines(lines: Seq<Seq<char>>) -> Seq<i32>
    decreases lines.len(),
{
    if lines.len() == 0 {
        Seq::empty()
    } else {
        match line_number(lines[0]) {
            Some(n) => seq![n] + numbers_of_lines(lines.drop_first()),
            None => numbers_of_lines(lines.drop_first()),
        }
    }
}

/// The integers that the lines of `text` give.
pub open spec fn numbers_in(text: Seq<char>) -> Seq<i32> {
    numbers_of_lines(lines_of(text))
}

/// Why the contents of a file could not be read as integers.
#[derive(Clone, Copy, Debug, PartialEq, Eq)]
pub enum ReadError {
    /// The contents are not text in UTF-8.
    InvalidEncoding,
}

/// The integers in the contents of a file: those of its text, where the
/// contents are text in UTF-8, and nothing where they are not.
pub open spec fn numbers_in_contents(contents: Seq<u8>) -> Option<Seq<i32>> {
    if valid_utf8(contents) {
        Some(numbers_in(decode_utf8(contents)))
    } else {
        None
    }
}

/// The text that `contents` encode. This is `core::str::from_utf8`, which
/// is not verified here: it is taken to succeed exactly on valid UTF-8, and
/// then to give the text whose bytes are `contents`.
#[verifier::external_body]
fn text_of(contents: &[u8]) -> (text: Option<&str>)
    ensures
        text is Some <==> valid_utf8(contents@),
        text is Some ==> text->0.spec_bytes() == contents@,
{
    match core::str::from_utf8(contents) {
        Ok(text) => Some(text),
        Err(_) => None,
    }
}

/// The integer on `line`, if it holds one and nothing else but white space
/// around it.
pub fn parse_line(line: &str) -> (number: Option<i32>)
    ensures
        number == line_number(line@),
{
    let chars = chars_of(line);
    let (lo, hi): (usize, usize) = trim_bounds(chars.as_slice(), 0, chars.len());
    assert(chars@.subrange(0, chars@.len() as int) =~= chars@);
    parse_span(chars.as_slice(), lo, hi)
}

/// The integers in `text`, line by line. Lines that hold no integer, blank
/// ones among them, are passed over.
pub fn parse_numbers(text: &str) -> (numbers: Vec<i32>)
    ensures
        numbers@ == numbers_in(text@),
{
    let owned = chars_of(text);
    let chars = owned.as_slice();
    let mut numbers: Vec<i32> = Vec::new();
    let mut start: usize = 0;
    assert(chars@.skip(0) =~= chars@);
    assert(numbers@ + numbers_in(chars@) =~= numbers_in(text@));
    while start < chars.len()
        invariant
            start <= chars@.len(),
            chars@ == text@,
            numbers@ + numbers_in(chars@.skip(start as int)) == numbers_in(text@),
        decreases chars@.len() - start,
    {
        let ghost rest = chars@.skip(start as int);
        let ghost before = numbers@;
        let end: usize = line_end(chars, start);
        let (lo, hi): (usize, usize) = trim_bounds(chars, start, end);
        let found = parse_span(chars, lo, hi);
        let ghost line = chars@.subrange(start as int, end as int);
        assert(line =~= rest.take(end - start));
        assert(found == line_number(line));
        if let Some(n) = found {
            numbers.push(n);
        }
        if end < chars.len() {
            let ghost tail = lines_of(rest.skip(end - start + 1));
            assert(rest.skip(end - start + 1) =~= chars@.skip(end as int + 1));
            assert(lines_of(rest) == seq![line] + tail);
            assert((seq![line] + tail).drop_first() =~= tail);
            assert(numbers@ + numbers_of_lines(tail) =~= before + numbers_of_lines(lines_of(rest)));
            start = end + 1;
        } else {
            assert(line =~= rest);
            assert(lines_of(rest) == seq![rest]);
            assert(seq![rest].drop_first() =~= Seq::<Seq<char>>::empty());
            assert(chars@.skip(end as int) =~= Seq::<char>::empty());
            assert(numbers@ + numbers_in(chars@.skip(end as int)) =~= before + numbers_of_lines(
                lines_of(rest),
            ));
            start = end;
        }
    }
    assert(chars@.skip(start as int) =~= Seq::<char>::empty());
    assert(numbers@ + numbers_in(chars@.skip(start as int)) =~= numbers@);
    numbers
}

/// The integers in the contents of a file, line by line. Contents that are
/// not text in UTF-8 give an error and no integers, wherever the fault lies
/// in them.
pub fn read_numbers(contents: &[u8]) -> (outcome: Result<Vec<i32>, ReadError>)
    ensures
        match outcome {
            Ok(numbers) => numbers_in_contents(contents@) == Some(numbers@),
            Err(error) => numbers_in_contents(contents@) is None && error
                == ReadError::InvalidEncoding,
        },
{
    match text_of(contents) {
        Some(text) => {
            proof {
                encode_utf8_decode_utf8(text@);
            }
            Ok(parse_numbers(text))
        },
        None => Err(ReadError::InvalidEncoding),
    }
}

} // verus!
