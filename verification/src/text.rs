//! Texts as sequences of characters: white space, trimming and lines.

use vstd::prelude::*;
use vstd::std_specs::iter::IteratorSpec;
use vstd::utf8::is_ascii_chars;

verus! {

/// Whether `c` is white space: a character that Unicode classes as
/// `White_Space`.
pub open spec fn is_space(c: char) -> bool {
    let u: u32 = c as u32;
    ||| 0x09 <= u <= 0x0D
    ||| u == 0x20
    ||| u == 0x85
    ||| u == 0xA0
    ||| u == 0x1680
    ||| 0x2000 <= u <= 0x200A
    ||| u == 0x2028
    ||| u == 0x2029
    ||| u == 0x202F
    ||| u == 0x205F
    ||| u == 0x3000
}

/// `s` without the white space it starts with.
pub open spec fn trim_start(s: Seq<char>) -> Seq<char>
    decreases s.len(),
{
    if s.len() > 0 && is_space(s[0]) {
        trim_start(s.drop_first())
    } else {
        s
    }
}

/// `s` without the white space it ends with.
pub open spec fn trim_end(s: Seq<char>) -> Seq<char>
    decreases s.len(),
{
    if s.len() > 0 && is_space(s.last()) {
        trim_end(s.drop_last())
    } else {
        s
    }
}

/// `s` without the white space at either end.
pub open spec fn trim(s: Seq<char>) -> Seq<char> {
    trim_end(trim_start(s))
}

/// How many characters of `s` stand before its first line feed, or all of
/// them where it has none.
pub open spec fn line_len(s: Seq<char>) -> int
    decreases s.len(),
{
    if s.len() == 0 || s[0] == '\n' {
        0
    } else {
        1 + line_len(s.drop_first())
    }
}

/// The lines of `s`. A line ends at a line feed, which is no part of it, or
/// at the end of the text. An empty text has no line, and a line feed at the
/// very end starts no further line. A carriage return before the line feed
/// stays on the line, as the white space that it is.
pub open spec fn lines_of(s: Seq<char>) -> Seq<Seq<char>>
    decreases s.len(),
{
    let n: int = line_len(s);
    if s.len() == 0 {
        Seq::empty()
    } else if 0 <= n < s.len() {
        seq![s.take(n)] + lines_of(s.skip(n + 1))
    } else {
        seq![s]
    }
}

/// A text without a line feed is at most a single line.
pub open spec fn is_line(s: Seq<char>) -> bool {
    forall|i: int| 0 <= i < s.len() ==> s[i] != '\n'
}

/// Whether `s` is white space only, all on one line.
pub open spec fn is_padding(s: Seq<char>) -> bool {
    forall|i: int| 0 <= i < s.len() ==> is_space(#[trigger] s[i]) && s[i] != '\n'
}

/// The text made of `lines`, each followed by a line feed.
pub open spec fn terminated(lines: Seq<Seq<char>>) -> Seq<char>
    decreases lines.len(),
{
    if lines.len() == 0 {
        Seq::empty()
    } else {
        lines[0] + seq!['\n'] + terminated(lines.drop_first())
    }
}

/// The first line lies within the text and holds no line feed, and a line
/// feed follows it unless the text ends with it.
pub proof fn lemma_line_len_bounds(s: Seq<char>)
    ensures
        0 <= line_len(s) <= s.len(),
        line_len(s) < s.len() ==> s[line_len(s)] == '\n',
        forall|i: int| 0 <= i < line_len(s) ==> s[i] != '\n',
    decreases s.len(),
{
    if s.len() == 0 || s[0] == '\n' {
    } else {
        let rest = s.drop_first();
        lemma_line_len_bounds(rest);
        assert forall|i: int| 0 <= i < line_len(s) implies s[i] != '\n' by {
            if i > 0 {
                assert(s[i] == rest[i - 1]);
            }
        }
        if line_len(s) < s.len() {
            assert(s[line_len(s)] == rest[line_len(rest)]);
        }
    }
}

/// A text that starts with a line and its line feed has that line as its
/// first.
pub proof fn lemma_line_len_terminated(line: Seq<char>, rest: Seq<char>)
    requires
        is_line(line),
    ensures
        line_len(line + seq!['\n'] + rest) == line.len(),
    decreases line.len(),
{
    let text = line + seq!['\n'] + rest;
    if line.len() == 0 {
        assert(text[0] == '\n');
    } else {
        assert(text[0] == line[0]);
        assert(text.drop_first() =~= line.drop_first() + seq!['\n'] + rest);
        assert forall|i: int| 0 <= i < line.drop_first().len() implies line.drop_first()[i]
            != '\n' by {
            assert(line.drop_first()[i] == line[i + 1]);
        }
        lemma_line_len_terminated(line.drop_first(), rest);
    }
}

/// Where a text has a line feed, its first line is not changed by what is
/// put behind the text.
pub proof fn lemma_line_len_prefix(text: Seq<char>, more: Seq<char>)
    requires
        line_len(text) < text.len(),
    ensures
        line_len(text + more) == line_len(text),
    decreases text.len(),
{
    if text[0] == '\n' {
        assert((text + more)[0] == '\n');
    } else {
        assert((text + more)[0] == text[0]);
        assert((text + more).drop_first() =~= text.drop_first() + more);
        lemma_line_len_prefix(text.drop_first(), more);
    }
}

/// The lines of a text made of lines, each ended by a line feed, are those
/// lines.
pub proof fn lemma_lines_of_terminated(lines: Seq<Seq<char>>)
    requires
        forall|i: int| 0 <= i < lines.len() ==> is_line(#[trigger] lines[i]),
    ensures
        lines_of(terminated(lines)) == lines,
    decreases lines.len(),
{
    if lines.len() > 0 {
        let first = lines[0];
        let tail = lines.drop_first();
        let text = terminated(lines);
        assert(text == first + seq!['\n'] + terminated(tail));
        lemma_line_len_terminated(first, terminated(tail));
        assert(text.take(first.len() as int) =~= first);
        assert(text.skip(first.len() as int + 1) =~= terminated(tail));
        assert forall|i: int| 0 <= i < tail.len() implies is_line(#[trigger] tail[i]) by {
            assert(tail[i] == lines[i + 1]);
        }
        lemma_lines_of_terminated(tail);
        assert(seq![first] + tail =~= lines);
    }
}

/// White space in front is taken away up to the first other character.
pub proof fn lemma_trim_start_padded(left: Seq<char>, rest: Seq<char>)
    requires
        forall|i: int| 0 <= i < left.len() ==> is_space(#[trigger] left[i]),
        rest.len() > 0,
        !is_space(rest[0]),
    ensures
        trim_start(left + rest) == rest,
    decreases left.len(),
{
    if left.len() == 0 {
        assert(left + rest =~= rest);
    } else {
        assert((left + rest)[0] == left[0]);
        assert((left + rest).drop_first() =~= left.drop_first() + rest);
        assert forall|i: int| 0 <= i < left.drop_first().len() implies is_space(
            #[trigger] left.drop_first()[i],
        ) by {
            assert(left.drop_first()[i] == left[i + 1]);
        }
        lemma_trim_start_padded(left.drop_first(), rest);
    }
}

/// White space at the end is taken away back to the last other character.
pub proof fn lemma_trim_end_padded(rest: Seq<char>, right: Seq<char>)
    requires
        forall|i: int| 0 <= i < right.len() ==> is_space(#[trigger] right[i]),
        rest.len() > 0,
        !is_space(rest.last()),
    ensures
        trim_end(rest + right) == rest,
    decreases right.len(),
{
    if right.len() == 0 {
        assert(rest + right =~= rest);
    } else {
        assert((rest + right).last() == right.last());
        assert((rest + right).drop_last() =~= rest + right.drop_last());
        assert forall|i: int| 0 <= i < right.drop_last().len() implies is_space(
            #[trigger] right.drop_last()[i],
        ) by {
            assert(right.drop_last()[i] == right[i]);
        }
        lemma_trim_end_padded(rest, right.drop_last());
    }
}

/// White space before and after a token is not read: a padded token trims
/// to the token.
pub proof fn lemma_trim_padded(left: Seq<char>, token: Seq<char>, right: Seq<char>)
    requires
        forall|i: int| 0 <= i < left.len() ==> is_space(#[trigger] left[i]),
        forall|i: int| 0 <= i < right.len() ==> is_space(#[trigger] right[i]),
        token.len() > 0,
        !is_space(token[0]),
        !is_space(token.last()),
    ensures
        trim(left + token + right) == token,
{
    lemma_trim_start_padded(left, token + right);
    assert(left + token + right =~= left + (token + right));
    lemma_trim_end_padded(token, right);
}

/// Lines of ASCII characters make a text of ASCII characters.
pub proof fn lemma_terminated_is_ascii(lines: Seq<Seq<char>>)
    requires
        forall|i: int| 0 <= i < lines.len() ==> is_ascii_chars(#[trigger] lines[i]),
    ensures
        is_ascii_chars(terminated(lines)),
    decreases lines.len(),
{
    if lines.len() > 0 {
        let first = lines[0];
        let tail = lines.drop_first();
        let text = terminated(lines);
        assert(is_ascii_chars(first));
        assert forall|i: int| 0 <= i < tail.len() implies is_ascii_chars(#[trigger] tail[i]) by {
            assert(tail[i] == lines[i + 1]);
        }
        lemma_terminated_is_ascii(tail);
        assert forall|k: int| 0 <= k < text.len() implies '\0' <= #[trigger] text[k]
            <= '\u{7f}' by {
            if k < first.len() {
                assert(text[k] == first[k]);
            } else if k == first.len() {
                assert(text[k] == '\n');
            } else {
                assert(text[k] == terminated(tail)[k - first.len() - 1]);
            }
        }
    }
}

/// Whether `c` is white space.
pub fn is_whitespace(c: char) -> (space: bool)
    ensures
        space == is_space(c),
{
    let u: u32 = c as u32;
    (0x09 <= u && u <= 0x0D) || u == 0x20 || u == 0x85 || u == 0xA0 || u == 0x1680 || (0x2000 <= u
        && u <= 0x200A) || u == 0x2028 || u == 0x2029 || u == 0x202F || u == 0x205F || u == 0x3000
}

/// The characters of `text`, in order.
pub fn chars_of(text: &str) -> (chars: Vec<char>)
    ensures
        chars@ == text@,
{
    broadcast use vstd::string::group_string_axioms;

    let mut chars: Vec<char> = Vec::new();
    let mut rest = text.chars();
    loop
        invariant
            rest.obeys_prophetic_iter_laws(),
            rest.decrease() is Some,
            chars@ + rest.remaining() =~= text@,
        ensures
            rest.remaining().len() == 0,
        decreases rest.decrease()->0,
    {
        match rest.next() {
            Some(c) => {
                chars.push(c);
            },
            None => {
                break ;
            },
        }
    }
    chars
}

/// Where the line that starts at `start` ends: at the next line feed, or at
/// the end of `chars`.
pub fn line_end(chars: &[char], start: usize) -> (end: usize)
    requires
        start <= chars@.len(),
    ensures
        start <= end <= chars@.len(),
        end - start == line_len(chars@.skip(start as int)),
{
    let mut end: usize = start;
    while end < chars.len() && chars[end] != '\n'
        invariant
            start <= end <= chars@.len(),
            line_len(chars@.skip(start as int)) == (end - start) + line_len(chars@.skip(end as int)),
        decreases chars@.len() - end,
    {
        assert(chars@.skip(end as int).drop_first() =~= chars@.skip(end as int + 1));
        end = end + 1;
    }
    end
}

/// The bounds of what is left of `chars[start..end]` once the white space at
/// its two ends is taken away. Where nothing is left, both bounds are `end`.
pub fn trim_bounds(chars: &[char], start: usize, end: usize) -> (bounds: (usize, usize))
    requires
        start <= end <= chars@.len(),
    ensures
        start <= bounds.0 <= bounds.1 <= end,
        chars@.subrange(bounds.0 as int, bounds.1 as int) == trim(
            chars@.subrange(start as int, end as int),
        ),
        end - bounds.0 == trim_start(chars@.subrange(start as int, end as int)).len(),
{
    let mut lo: usize = start;
    while lo < end && is_whitespace(chars[lo])
        invariant
            start <= lo <= end <= chars@.len(),
            trim_start(chars@.subrange(start as int, end as int)) == trim_start(
                chars@.subrange(lo as int, end as int),
            ),
        decreases end - lo,
    {
        assert(chars@.subrange(lo as int, end as int).drop_first() =~= chars@.subrange(
            lo as int + 1,
            end as int,
        ));
        lo = lo + 1;
    }
    let mut hi: usize = end;
    while hi > lo && is_whitespace(chars[hi - 1])
        invariant
            lo <= hi <= end <= chars@.len(),
            trim_end(chars@.subrange(lo as int, end as int)) == trim_end(
                chars@.subrange(lo as int, hi as int),
            ),
        decreases hi - lo,
    {
        assert(chars@.subrange(lo as int, hi as int).drop_last() =~= chars@.subrange(
            lo as int,
            hi as int - 1,
        ));
        hi = hi - 1;
    }
    (lo, hi)
}

} // verus!
