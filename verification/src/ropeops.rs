//! Trusted boundary to the rope that stores buffer text.
//!
//! The rope type is opaque to the verifier. `rope_text` names the bytes a
//! rope holds; each wrapper below states over that name what the rope
//! operation computes. Grapheme-cluster boundaries come from the rope's
//! Unicode segmentation and are named, not spelled out.

use vstd::prelude::*;
use vstd::utf8::encode_utf8;
use vstd::utf8::is_char_boundary;
use vstd::utf8::valid_utf8;
use crate::textmodel::count_nl;
use crate::textmodel::line_start;
use crate::textmodel::total_nl;

verus! {

/// The rope holding a buffer's text. The verifier cannot declare the rope's
/// generic node type (its trait bound is outside code), so the rope sits in
/// an opaque struct; `rope_text` gives the bytes it holds, and the wrappers
/// below state what each rope operation computes over them.
#[verifier::external_body]
pub struct TextRope {
    rope: xi_rope::Rope,
}

/// The bytes a rope holds: its text, in UTF-8 code units.
pub uninterp spec fn rope_text(r: TextRope) -> Seq<u8>;

/// The grapheme-cluster boundary of `s` before offset `off`, if any.
pub uninterp spec fn prev_grapheme_of(s: Seq<u8>, off: int) -> Option<usize>;

/// The grapheme-cluster boundary of `s` after offset `off`, if any.
pub uninterp spec fn next_grapheme_of(s: Seq<u8>, off: int) -> Option<usize>;

/// Relies on `Rope::from(&str)`: the rope takes exactly the string's bytes.
#[verifier::external_body]
pub(crate) fn rope_of_str(s: &str) -> (r: TextRope)
    ensures
        rope_text(r) == encode_utf8(s@),
{
    TextRope { rope: xi_rope::Rope::from(s) }
}

/// Relies on `Node::len`: the length of the rope's text in bytes.
#[verifier::external_body]
pub(crate) fn rope_len(r: &TextRope) -> (n: usize)
    ensures
        n == rope_text(*r).len(),
{
    r.rope.len()
}

/// Relies on `Node::clone` (a shared-pointer clone): same bytes.
#[verifier::external_body]
pub(crate) fn rope_clone(r: &TextRope) -> (c: TextRope)
    ensures
        rope_text(c) == rope_text(*r),
{
    TextRope { rope: r.rope.clone() }
}

/// Relies on `Node::measure::<LinesMetric>`: the number of line-break bytes
/// in the rope's text.
#[verifier::external_body]
pub(crate) fn rope_count_breaks(r: &TextRope) -> (n: usize)
    ensures
        n == total_nl(rope_text(*r)),
{
    r.rope.measure::<xi_rope::LinesMetric>()
}

/// Relies on `Rope::line_of_offset`: the number of line breaks before
/// `offset`. The rope panics past the text end and on offsets inside a
/// character's encoding, so those are excluded.
#[verifier::external_body]
pub(crate) fn rope_line_of_offset(r: &TextRope, offset: usize) -> (line: usize)
    requires
        offset <= rope_text(*r).len(),
        valid_utf8(rope_text(*r)),
        is_char_boundary(rope_text(*r), offset as int),
    ensures
        line == count_nl(rope_text(*r), offset as int),
{
    r.rope.line_of_offset(offset)
}

/// Relies on `Rope::offset_of_line`: the offset where line `line` starts,
/// which is the text end for the line one past the last break. The rope
/// panics on larger line numbers, so those are excluded.
#[verifier::external_body]
pub(crate) fn rope_offset_of_line(r: &TextRope, line: usize) -> (off: usize)
    requires
        line <= total_nl(rope_text(*r)) + 1,
    ensures
        off == line_start(rope_text(*r), line as int),
{
    r.rope.offset_of_line(line)
}

/// Relies on `Rope::prev_grapheme_offset`: the grapheme-cluster boundary
/// before `off`. A boundary it returns lies strictly before `off` on a
/// character boundary; before the text start there is none.
#[verifier::external_body]
pub(crate) fn rope_prev_grapheme(r: &TextRope, off: usize) -> (p: Option<usize>)
    requires
        off <= rope_text(*r).len(),
    ensures
        p == prev_grapheme_of(rope_text(*r), off as int),
        p matches Some(q) ==> q < off && is_char_boundary(rope_text(*r), q as int),
        off == 0 ==> p is None,
{
    r.rope.prev_grapheme_offset(off)
}

/// Relies on `Rope::next_grapheme_offset`: the grapheme-cluster boundary
/// after `off`. A boundary it returns lies strictly after `off`, within the
/// text, on a character boundary; after the text end there is none.
#[verifier::external_body]
pub(crate) fn rope_next_grapheme(r: &TextRope, off: usize) -> (p: Option<usize>)
    requires
        off <= rope_text(*r).len(),
    ensures
        p == next_grapheme_of(rope_text(*r), off as int),
        p matches Some(q) ==> off < q <= rope_text(*r).len() && is_char_boundary(
            rope_text(*r),
            q as int,
        ),
        off == rope_text(*r).len() ==> p is None,
{
    r.rope.next_grapheme_offset(off)
}

/// Relies on `From<&Rope> for String`: the string holds the rope's text.
#[verifier::external_body]
pub(crate) fn rope_to_string(r: &TextRope) -> (s: String)
    ensures
        encode_utf8(s@) == rope_text(*r),
{
    String::from(&r.rope)
}

/// Relies on `Node::edit`: replaces the byte range `[start, end)` of the text
/// with the string's bytes. Both ends must be character boundaries within the
/// text, else the rope panics when it slices its leaves.
#[verifier::external_body]
pub(crate) fn rope_replace(r: &mut TextRope, start: usize, end: usize, new_text: &str)
    requires
        start <= end <= rope_text(*old(r)).len(),
        valid_utf8(rope_text(*old(r))),
        is_char_boundary(rope_text(*old(r)), start as int),
        is_char_boundary(rope_text(*old(r)), end as int),
    ensures
        rope_text(*final(r)) == rope_text(*old(r)).subrange(0, start as int) + encode_utf8(
            new_text@,
        ) + rope_text(*old(r)).subrange(end as int, rope_text(*old(r)).len() as int),
{
    r.rope.edit(start..end, new_text)
}

} // verus!
