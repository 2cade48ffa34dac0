//! The mathematical model of buffer text: a byte sequence together with its
//! line structure. Offsets count code units; a line break is the byte 0x0A;
//! line `l` starts just after the `l`-th break. Character boundaries come
//! from `vstd`'s UTF-8 model.

use vstd::prelude::*;
use vstd::utf8::is_char_boundary;
use vstd::utf8::is_continuation_byte;
use vstd::utf8::is_char_boundary_iff_not_is_continuation_byte;
use vstd::utf8::is_char_boundary_start_end_of_seq;
use vstd::utf8::length_of_first_scalar;
use vstd::utf8::pop_first_scalar;
use vstd::utf8::valid_utf8;
use vstd::utf8::valid_utf8_split;

verus! {

/// The line-break byte.
pub const BREAK_BYTE: u8 = 10;

/// Number of line-break bytes strictly before offset `i`.
pub open spec fn count_nl(s: Seq<u8>, i: int) -> nat
    decreases i,
{
    if i <= 0 {
        0nat
    } else {
        count_nl(s, i - 1) + (if i - 1 < s.len() && s[i - 1] == BREAK_BYTE {
            1nat
        } else {
            0nat
        })
    }
}

/// Number of line-break bytes in the whole text.
pub open spec fn total_nl(s: Seq<u8>) -> nat {
    count_nl(s, s.len() as int)
}

/// Offset just after the first line break at or after `i`; the end of the
/// text when no break follows.
pub open spec fn next_break(s: Seq<u8>, i: int) -> int
    decreases s.len() - i,
{
    if i < 0 {
        next_break(s, 0)
    } else if i >= s.len() {
        s.len() as int
    } else if s[i] == BREAK_BYTE {
        i + 1
    } else {
        next_break(s, i + 1)
    }
}

/// Byte offset of the start of line `line`: offset 0 for line 0, and one past
/// the `line`-th break after that. Lines past the last break all start at the
/// end of the text.
pub open spec fn line_start(s: Seq<u8>, line: int) -> int
    decreases line,
{
    if line <= 0 {
        0
    } else {
        next_break(s, line_start(s, line - 1))
    }
}

/// The index of the line holding offset `off`: the number of breaks before it.
pub open spec fn line_of(s: Seq<u8>, off: int) -> int {
    count_nl(s, off) as int
}

/// Counting breaks is monotone, and gains at most one per byte.
pub proof fn lemma_count_nl_mono(s: Seq<u8>, i: int, j: int)
    requires
        i <= j,
    ensures
        count_nl(s, i) <= count_nl(s, j),
        count_nl(s, j) <= count_nl(s, i) + (j - i),
    decreases j - i,
{
    if i < j {
        lemma_count_nl_mono(s, i, j - 1);
    }
}

/// Counting breaks past the end of the text counts them all.
pub proof fn lemma_count_nl_clamp(s: Seq<u8>, i: int)
    requires
        i >= s.len(),
    ensures
        count_nl(s, i) == total_nl(s),
    decreases i,
{
    if i > s.len() {
        lemma_count_nl_clamp(s, i - 1);
    }
}

/// A break inside `[i, j)` separates the break counts at `i` and `j`.
pub proof fn lemma_count_nl_gap(s: Seq<u8>, i: int, k: int, j: int)
    requires
        0 <= i <= k,
        k + 1 <= j,
        k < s.len(),
        s[k] == BREAK_BYTE,
    ensures
        count_nl(s, i) < count_nl(s, j),
{
    lemma_count_nl_mono(s, i, k);
    assert(count_nl(s, k + 1) == count_nl(s, k) + 1);
    lemma_count_nl_mono(s, k + 1, j);
}

/// Characterizes `next_break`: it stays within the text, moves strictly
/// forward, and the only break it skips is the one it stops behind.
pub proof fn lemma_next_break_props(s: Seq<u8>, i: int)
    requires
        0 <= i <= s.len(),
    ensures
        i <= next_break(s, i) <= s.len(),
        i < s.len() ==> next_break(s, i) > i,
        forall|k: int|
            i <= k < next_break(s, i) - 1 ==> s[k] != BREAK_BYTE,
        next_break(s, i) > i && next_break(s, i) < s.len() ==> s[next_break(s, i) - 1]
            == BREAK_BYTE,
    decreases s.len() - i,
{
    if i < s.len() && s[i] != BREAK_BYTE {
        lemma_next_break_props(s, i + 1);
    }
}

/// A scan that saw no break before `k` pins `next_break` down: it is `k + 1`
/// when a break stands at `k`, and the text end when `k` is the end.
pub proof fn lemma_next_break_exact(t: Seq<u8>, i: int, k: int)
    requires
        0 <= i <= k <= t.len(),
        forall|j: int| i <= j < k ==> t[j] != BREAK_BYTE,
        k < t.len() ==> t[k] == BREAK_BYTE,
    ensures
        next_break(t, i) == if k < t.len() {
            k + 1
        } else {
            t.len() as int
        },
    decreases k - i,
{
    if i < k {
        lemma_next_break_exact(t, i + 1, k);
    }
}

/// How one `next_break` step changes the break count: by one exactly when it
/// stopped behind a break.
pub proof fn lemma_next_break_count(s: Seq<u8>, i: int)
    requires
        0 <= i <= s.len(),
    ensures
        count_nl(s, next_break(s, i)) == count_nl(s, i) + (if next_break(s, i) > i && s[next_break(
            s,
            i,
        ) - 1] == BREAK_BYTE {
            1nat
        } else {
            0nat
        }),
    decreases s.len() - i,
{
    if i >= s.len() {
    } else if s[i] == BREAK_BYTE {
        assert(count_nl(s, i + 1) == count_nl(s, i) + 1);
    } else {
        lemma_next_break_count(s, i + 1);
        assert(count_nl(s, i + 1) == count_nl(s, i));
        lemma_next_break_props(s, i + 1);
    }
}

/// Characterizes line starts: they stay within the text, line `l` starts just
/// after the `l`-th break while breaks remain, and at the text end after.
pub proof fn lemma_line_start_props(s: Seq<u8>, l: int)
    requires
        0 <= l,
    ensures
        0 <= line_start(s, l) <= s.len(),
        count_nl(s, line_start(s, l)) == (if l <= total_nl(s) {
            l
        } else {
            total_nl(s) as int
        }),
        l > total_nl(s) ==> line_start(s, l) == s.len(),
        1 <= l <= total_nl(s) ==> (line_start(s, l) >= 1 && s[line_start(s, l) - 1] == BREAK_BYTE),
    decreases l,
{
    if l == 0 {
    } else {
        lemma_line_start_props(s, l - 1);
        let ls = line_start(s, l - 1);
        lemma_next_break_props(s, ls);
        lemma_next_break_count(s, ls);
        let nb = next_break(s, ls);
        lemma_count_nl_mono(s, nb, s.len() as int);
        if l - 1 >= total_nl(s) {
            // No breaks remain after ls, so the step stops at the text end.
            if nb > ls && nb < s.len() {
                lemma_count_nl_gap(s, ls, nb - 1, s.len() as int);
            }
            if nb > ls && nb == s.len() && s[nb - 1] == BREAK_BYTE {
                lemma_count_nl_gap(s, ls, nb - 1, s.len() as int);
            }
        } else {
            // A break remains, so the step finds one.
            if !(nb > ls && s[nb - 1] == BREAK_BYTE) {
                assert(nb == s.len());
                assert(count_nl(s, nb) == count_nl(s, ls));
            }
        }
    }
}

/// Line starts are monotone in the line index.
pub proof fn lemma_line_start_mono(s: Seq<u8>, l1: int, l2: int)
    requires
        0 <= l1 <= l2,
    ensures
        line_start(s, l1) <= line_start(s, l2),
    decreases l2 - l1,
{
    if l1 < l2 {
        lemma_line_start_mono(s, l1, l2 - 1);
        lemma_line_start_props(s, l2 - 1);
        lemma_next_break_props(s, line_start(s, l2 - 1));
    }
}

/// An offset lies in the line that counts the breaks before it: at or after
/// that line's start and, unless the offset is the text end, strictly before
/// the next line's start.
pub proof fn lemma_line_of_inverse(s: Seq<u8>, off: int)
    requires
        0 <= off <= s.len(),
    ensures
        count_nl(s, off) <= total_nl(s),
        line_start(s, line_of(s, off)) <= off,
        off < s.len() ==> off < line_start(s, line_of(s, off) + 1),
{
    lemma_count_nl_mono(s, off, s.len() as int);
    let ll = line_of(s, off);
    lemma_line_start_props(s, ll);
    let ls = line_start(s, ll);
    if ls > off {
        assert(ll >= 1);
        assert(s[ls - 1] == BREAK_BYTE);
        lemma_count_nl_gap(s, off, ls - 1, ls);
        assert(count_nl(s, off) < count_nl(s, ls));
    }
    if off < s.len() {
        lemma_line_start_props(s, ll + 1);
        if ll + 1 <= total_nl(s) {
            if line_start(s, ll + 1) <= off {
                lemma_count_nl_mono(s, line_start(s, ll + 1), off);
            }
        }
    }
}

/// In valid UTF-8, the byte right after a line break starts a new character.
pub proof fn lemma_boundary_after_break(s: Seq<u8>, k: int)
    requires
        valid_utf8(s),
        0 <= k < s.len(),
        s[k] == BREAK_BYTE,
    ensures
        is_char_boundary(s, k + 1),
{
    assert(!is_continuation_byte(s[k]));
    is_char_boundary_iff_not_is_continuation_byte(s, k);
    valid_utf8_split(s, k);
    let suf = s.subrange(k, s.len() as int);
    assert(suf[0] == BREAK_BYTE);
    assert(length_of_first_scalar(suf) == 1);
    if k + 1 == s.len() {
        is_char_boundary_start_end_of_seq(s);
    } else {
        let suf2 = pop_first_scalar(suf);
        assert(suf2 =~= s.subrange(k + 1, s.len() as int));
        assert(valid_utf8(suf2));
        assert(suf2.len() > 0);
        assert(!is_continuation_byte(suf2[0]));
        assert(suf2[0] == s[k + 1]);
        is_char_boundary_iff_not_is_continuation_byte(s, k + 1);
    }
}

/// The first byte of a non-empty valid UTF-8 sequence is a leading byte, not
/// a continuation byte.
pub proof fn lemma_valid_first_not_cont(b: Seq<u8>)
    requires
        valid_utf8(b),
        b.len() > 0,
    ensures
        !is_continuation_byte(b[0]),
{
    assert(vstd::utf8::valid_first_scalar(b));
}

/// A character boundary of the left part is one of the whole concatenation.
pub proof fn lemma_boundary_extend(a: Seq<u8>, b: Seq<u8>, j: int)
    requires
        valid_utf8(a),
        valid_utf8(b),
        is_char_boundary(a, j),
        0 <= j <= a.len(),
    ensures
        is_char_boundary(a + b, j),
{
    vstd::utf8::valid_utf8_concat(a, b);
    let c = a + b;
    if j == 0 {
    } else if j == c.len() {
        is_char_boundary_start_end_of_seq(c);
    } else if j < a.len() {
        is_char_boundary_iff_not_is_continuation_byte(a, j);
        is_char_boundary_iff_not_is_continuation_byte(c, j);
        assert(c[j] == a[j]);
    } else {
        // j == a.len() and b is non-empty: the junction starts b's first
        // character.
        lemma_valid_first_not_cont(b);
        is_char_boundary_iff_not_is_continuation_byte(c, j);
        assert(c[j] == b[0]);
    }
}

/// A character boundary of the right part, shifted past the left part, is one
/// of the whole concatenation.
pub proof fn lemma_boundary_shift(a: Seq<u8>, b: Seq<u8>, j: int)
    requires
        valid_utf8(a),
        valid_utf8(b),
        is_char_boundary(b, j),
        0 <= j <= b.len(),
    ensures
        is_char_boundary(a + b, a.len() + j),
{
    vstd::utf8::valid_utf8_concat(a, b);
    let c = a + b;
    if a.len() + j == c.len() {
        is_char_boundary_start_end_of_seq(c);
    } else {
        is_char_boundary_iff_not_is_continuation_byte(b, j);
        is_char_boundary_iff_not_is_continuation_byte(c, a.len() + j);
        assert(c[a.len() + j] == b[j]);
    }
}

/// A character boundary survives dropping a prefix that ends at or before it
/// on a boundary.
pub proof fn lemma_boundary_in_suffix(s: Seq<u8>, c: int, o: int)
    requires
        valid_utf8(s),
        is_char_boundary(s, c),
        is_char_boundary(s, o),
        0 <= c <= o <= s.len(),
    ensures
        is_char_boundary(s.subrange(c, s.len() as int), o - c),
{
    valid_utf8_split(s, c);
    let suf = s.subrange(c, s.len() as int);
    if o == c {
    } else if o == s.len() {
        is_char_boundary_start_end_of_seq(suf);
    } else {
        is_char_boundary_iff_not_is_continuation_byte(s, o);
        is_char_boundary_iff_not_is_continuation_byte(suf, o - c);
        assert(suf[o - c] == s[o]);
    }
}

/// The slice between two character boundaries of valid UTF-8 is valid UTF-8.
pub proof fn lemma_valid_slice(s: Seq<u8>, c: int, o: int)
    requires
        valid_utf8(s),
        is_char_boundary(s, c),
        is_char_boundary(s, o),
        0 <= c <= o <= s.len(),
    ensures
        valid_utf8(s.subrange(c, o)),
{
    valid_utf8_split(s, c);
    let suf = s.subrange(c, s.len() as int);
    lemma_boundary_in_suffix(s, c, o);
    valid_utf8_split(suf, o - c);
    assert(suf.subrange(0, o - c) =~= s.subrange(c, o));
}

/// Every line start in valid UTF-8 is a character boundary.
pub proof fn lemma_line_start_boundary(s: Seq<u8>, l: int)
    requires
        valid_utf8(s),
        0 <= l,
    ensures
        is_char_boundary(s, line_start(s, l)),
{
    lemma_line_start_props(s, l);
    let ls = line_start(s, l);
    is_char_boundary_start_end_of_seq(s);
    if 0 < ls < s.len() {
        if l <= total_nl(s) {
            lemma_boundary_after_break(s, ls - 1);
        }
    }
}

} // verus!
