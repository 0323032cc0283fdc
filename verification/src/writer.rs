//! Rendering integers as a text, one to a line.

use vstd::prelude::*;
use vstd::string::{StrSliceExecFns, StringExecFns};
use vstd::utf8::encode_utf8;
use crate::decimal::{decimal, push_decimal};
use crate::laws::lemma_rendered_bytes;
use crate::text::terminated;

verus! {

/// The decimal notation of each of `numbers`, in order.
pub open spec fn notations(numbers: Seq<i32>) -> Seq<Seq<char>> {
    Seq::new(numbers.len(), |i: int| decimal(numbers[i] as int))
}

/// The text that holds `numbers`: each in decimal notation on a line of its
/// own, in order, every line ended by a line feed.
pub open spec fn rendered(numbers: Seq<i32>) -> Seq<char> {
    terminated(notations(numbers))
}

/// The contents of a file with the text that holds `numbers`: one byte for
/// each of its characters, which are ASCII.
pub open spec fn rendered_bytes(numbers: Seq<i32>) -> Seq<u8> {
    Seq::new(rendered(numbers).len(), |i: int| rendered(numbers)[i] as u8)
}

/// The decimal notation of `n`.
pub fn render_number(n: i32) -> (text: String)
    ensures
        text@ == decimal(n as int),
{
    let mut text = String::new();
    push_decimal(&mut text, n);
    assert(text@ =~= decimal(n as int));
    text
}

/// The text that holds `numbers`, one to a line.
pub fn render_numbers(numbers: &[i32]) -> (text: String)
    ensures
        text@ == rendered(numbers@),
{
    let mut text = String::new();
    let mut i: usize = 0;
    assert(notations(numbers@).skip(0) =~= notations(numbers@));
    while i < numbers.len()
        invariant
            i <= numbers@.len(),
            text@ + terminated(notations(numbers@).skip(i as int)) == rendered(numbers@),
        decreases numbers@.len() - i,
    {
        let ghost before = text@;
        let ghost rest = notations(numbers@).skip(i as int);
        proof {
            reveal_strlit("\n");
        }
        push_decimal(&mut text, numbers[i]);
        text.append("\n");
        assert(rest[0] == decimal(numbers@[i as int] as int));
        assert(rest.drop_first() =~= notations(numbers@).skip(i as int + 1));
        assert(text@ + terminated(rest.drop_first()) =~= before + terminated(rest));
        i = i + 1;
    }
    assert(text@ + terminated(notations(numbers@).skip(i as int)) =~= text@);
    text
}

/// The contents of the file that holds `numbers`: their text, byte for
/// character, which is that text in UTF-8.
pub fn write_numbers(numbers: &[i32]) -> (contents: Vec<u8>)
    ensures
        contents@ == rendered_bytes(numbers@),
        contents@ == encode_utf8(rendered(numbers@)),
{
    let text = render_numbers(numbers);
    proof {
        lemma_rendered_bytes(numbers@);
    }
    text.as_str().as_bytes_vec()
}

} // verus!
