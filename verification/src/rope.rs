//! The rope that holds a buffer's text, from the `ropey` crate.

use ropey::Rope;
use vstd::prelude::*;
use crate::lines;
use crate::text;

verus! {

/// `ropey::Rope`, a balanced tree of text chunks.
#[verifier::external_type_specification]
#[verifier::external_body]
pub struct ExRope(Rope);

/// The characters that a rope holds, in order.
pub uninterp spec fn rope_text(r: Rope) -> Seq<char>;

/// `Rope::new` makes a rope that holds nothing.
pub assume_specification[ Rope::new ]() -> (r: Rope)
    ensures
        rope_text(r) == Seq::<char>::empty(),
;

/// `Rope::from_str` makes a rope that holds the given text.
pub assume_specification[ Rope::from_str ](s: &str) -> (r: Rope)
    ensures
        rope_text(r) == s@,
;

/// `Rope::len_bytes` is the length of the text in UTF-8 bytes.
pub assume_specification[ Rope::len_bytes ](r: &Rope) -> (n: usize)
    ensures
        n == text::blen(rope_text(*r)),
;

/// `Rope::len_lines` counts the lines; the text after the last line break is
/// a line too, even when it is empty.
pub assume_specification[ Rope::len_lines ](r: &Rope) -> (n: usize)
    ensures
        n == lines::line_count(rope_text(*r)),
;

/// `Rope::byte_to_char` gives the index of the character that a byte falls
/// in. It panics past the end of the text.
pub assume_specification[ Rope::byte_to_char ](r: &Rope, byte_idx: usize) -> (i: usize)
    requires
        byte_idx <= text::blen(rope_text(*r)),
    ensures
        i == text::at(rope_text(*r), byte_idx as int),
;

/// `Rope::byte_to_line` counts the line breaks before the character that a
/// byte falls in. It panics past the end of the text.
pub assume_specification[ Rope::byte_to_line ](r: &Rope, byte_idx: usize) -> (k: usize)
    requires
        byte_idx <= text::blen(rope_text(*r)),
    ensures
        k == lines::line_at(rope_text(*r), byte_idx as int),
;

/// `Rope::line_to_byte` gives the byte offset at which a line starts. It
/// panics for a line past the one after the last.
pub assume_specification[ Rope::line_to_byte ](r: &Rope, line_idx: usize) -> (b: usize)
    requires
        line_idx <= lines::line_count(rope_text(*r)),
    ensures
        b == lines::line_off(rope_text(*r), line_idx as int),
;

/// `Rope::insert` puts a text in front of the character with the given index.
/// It panics past the end of the text.
pub assume_specification[ Rope::insert ](r: &mut Rope, char_idx: usize, s: &str)
    requires
        char_idx <= rope_text(*old(r)).len(),
    ensures
        rope_text(*final(r)) == rope_text(*old(r)).take(char_idx as int) + s@ + rope_text(
            *old(r),
        ).skip(char_idx as int),
;

/// `Rope::remove` takes out the characters with the indices `lo..hi`. It
/// panics past the end of the text, or when `lo` is above `hi`.
#[verifier::external_body]
pub(crate) fn rope_remove(r: &mut Rope, lo: usize, hi: usize)
    requires
        lo <= hi <= rope_text(*old(r)).len(),
    ensures
        rope_text(*final(r)) == rope_text(*old(r)).take(lo as int) + rope_text(*old(r)).skip(
            hi as int,
        ),
{
    r.remove(lo..hi);
}

/// `Rope::line` with the conversion of the slice to a `String`: the text of a
/// line, its line break included. It panics past the last line.
#[verifier::external_body]
pub(crate) fn rope_line(r: &Rope, k: usize) -> (s: String)
    requires
        k < lines::line_count(rope_text(*r)),
    ensures
        s@ == lines::line_raw(rope_text(*r), k as int),
{
    r.line(k).into()
}

/// `Rope::byte_slice` with the conversion of the slice to a `String`: the
/// text between two byte offsets. It panics when an offset is past the end or
/// not at a character boundary.
#[verifier::external_body]
pub(crate) fn rope_slice(r: &Rope, lo: usize, hi: usize) -> (s: String)
    requires
        lo <= hi,
        text::bd(rope_text(*r), lo as int),
        text::bd(rope_text(*r), hi as int),
    ensures
        s@ == rope_text(*r).subrange(
            text::at(rope_text(*r), lo as int),
            text::at(rope_text(*r), hi as int),
        ),
{
    r.byte_slice(lo..hi).to_string()
}

/// The conversion of a `Rope` to a `String`: the whole text.
#[verifier::external_body]
pub(crate) fn rope_string(r: &Rope) -> (s: String)
    ensures
        s@ == rope_text(*r),
{
    r.to_string()
}

} // verus!
