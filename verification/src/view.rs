//! The buffer and its view: coordinate transforms between byte offsets and
//! (line, column) pairs, cursor movement, and multi-cursor edits.

use vstd::prelude::*;
use vstd::view::View as _;
use vstd::string::StringSliceAdditionalSpecFns;
use vstd::utf8::encode_utf8;
use vstd::utf8::encode_utf8_valid_utf8;
use vstd::utf8::is_char_boundary;
use vstd::utf8::is_char_boundary_start_end_of_seq;
use vstd::utf8::valid_utf8;
use crate::ropeops::TextRope;
use crate::ropeops::next_grapheme_of;
use crate::ropeops::prev_grapheme_of;
use crate::ropeops::rope_clone;
use crate::ropeops::rope_count_breaks;
use crate::ropeops::rope_len;
use crate::ropeops::rope_line_of_offset;
use crate::ropeops::rope_next_grapheme;
use crate::ropeops::rope_of_str;
use crate::ropeops::rope_offset_of_line;
use crate::ropeops::rope_prev_grapheme;
use crate::ropeops::rope_replace;
use crate::ropeops::rope_text;
use crate::selection::Column;
use crate::selection::Selection;
use crate::selection::SelectionGroup;
use crate::selection::group_of;
use crate::selection::lemma_add_region_offsets;
use crate::selection::offsets_from;
use crate::selection::regions_wf;
use crate::textmodel::BREAK_BYTE;
use crate::textmodel::count_nl;
use crate::textmodel::line_of;
use crate::textmodel::line_start;
use crate::textmodel::next_break;
use crate::textmodel::total_nl;
use crate::textmodel::lemma_boundary_after_break;
use crate::textmodel::lemma_boundary_extend;
use crate::textmodel::lemma_boundary_in_suffix;
use crate::textmodel::lemma_boundary_shift;
use crate::textmodel::lemma_count_nl_clamp;
use crate::textmodel::lemma_count_nl_mono;
use crate::textmodel::lemma_line_of_inverse;
use crate::textmodel::lemma_line_start_boundary;
use crate::textmodel::lemma_line_start_mono;
use crate::textmodel::lemma_line_start_props;
use crate::textmodel::lemma_next_break_exact;
use crate::textmodel::lemma_valid_slice;

verus! {

/// Identifies one buffer among several in a session.
#[derive(Debug, Clone, Copy, PartialEq, Eq, PartialOrd, Ord, Hash)]
pub struct BufferId(pub usize);

/// The text content of one document, stored in a rope.
pub struct Buffer {
    rope: TextRope,
}

/// Offset `o` can serve as a selection edge in text `s`: it lies within the
/// text on a character boundary.
pub open spec fn offset_in(s: Seq<u8>, o: int) -> bool {
    0 <= o <= s.len() && is_char_boundary(s, o)
}

/// Both edges of the region can serve as positions in text `s`.
pub open spec fn region_in(s: Seq<u8>, r: Selection) -> bool {
    offset_in(s, r.start as int) && offset_in(s, r.end as int)
}

/// Every region of the sequence fits text `s`.
pub open spec fn regions_in(s: Seq<u8>, rs: Seq<Selection>) -> bool {
    forall|i: int| 0 <= i < rs.len() ==> region_in(s, #[trigger] rs[i])
}

impl Buffer {
    /// The bytes of the buffer's text.
    pub closed spec fn text(&self) -> Seq<u8> {
        rope_text(self.rope)
    }

    /// The buffer holds valid UTF-8 and leaves room for an offset one past
    /// its end.
    pub open spec fn wf(&self) -> bool {
        valid_utf8(self.text()) && self.text().len() < usize::MAX
    }

    /// An empty buffer.
    pub fn new() -> (b: Buffer)
        ensures
            b.text() =~= Seq::<u8>::empty(),
            b.wf(),
    {
        let b = Buffer { rope: rope_of_str("") };
        proof {
            reveal_strlit("");
            assert(encode_utf8(""@) =~= Seq::<u8>::empty());
        }
        b
    }

    /// A buffer holding the given text.
    pub fn from_text(s: &str) -> (b: Buffer)
        requires
            encode_utf8(s@).len() < usize::MAX,
        ensures
            b.text() == encode_utf8(s@),
            b.wf(),
    {
        let b = Buffer { rope: rope_of_str(s) };
        proof {
            encode_utf8_valid_utf8(s@);
        }
        b
    }

    /// The length of the text in bytes.
    pub fn len(&self) -> (n: usize)
        ensures
            n == self.text().len(),
    {
        rope_len(&self.rope)
    }

    /// The text as a string.
    pub fn text_string(&self) -> (s: String)
        ensures
            encode_utf8(s@) == self.text(),
    {
        crate::ropeops::rope_to_string(&self.rope)
    }

    /// A fresh view of this buffer, with a single caret at the text start.
    pub fn view(&self) -> (v: View)
        requires
            self.wf(),
        ensures
            v.text() == self.text(),
            v.sel() =~= seq![Selection { start: 0, end: 0, column: None::<Column> }],
            v.wf(),
    {
        View::new(self)
    }
}

/// When paging through a file, the number of lines from the previous page
/// that will also be visible in the next.
const SCROLL_OVERLAP: isize = 2;

/// A view of one buffer: the buffer's text, the viewport, and the current
/// selection.
pub struct View {
    buffer: Buffer,
    /// Vertical scroll position.
    first_line: usize,
    /// Height of the visible portion, in lines.
    height: usize,
    selection: SelectionGroup,
    /// New offset to be scrolled into position after an edit.
    scroll_to: Option<usize>,
}

impl View {
    /// The bytes of the viewed text.
    pub closed spec fn text(&self) -> Seq<u8> {
        self.buffer.text()
    }

    /// The current selection regions.
    pub closed spec fn sel(&self) -> Seq<Selection> {
        self.selection.regions@
    }

    /// The viewport height, in lines.
    pub closed spec fn spec_height(&self) -> int {
        self.height as int
    }

    /// The view invariant: the buffer is well formed, the selection regions
    /// are sorted and non-overlapping, every region edge lies in the text on
    /// a character boundary, and the viewport height is positive and sane.
    pub closed spec fn wf(&self) -> bool {
        &&& self.buffer.wf()
        &&& regions_wf(self.sel())
        &&& regions_in(self.text(), self.sel())
        &&& 1 <= self.spec_height() <= 1000000
    }

    pub(crate) fn new(buffer: &Buffer) -> (v: View)
        requires
            buffer.wf(),
        ensures
            v.text() == buffer.text(),
            v.sel() =~= seq![Selection { start: 0, end: 0, column: None::<Column> }],
            v.wf(),
    {
        let mut selection = SelectionGroup::new();
        selection.regions.push(Selection::new(0, 0));
        let v = View {
            buffer: Buffer { rope: rope_clone(&buffer.rope) },
            first_line: 0,
            height: 10,
            selection,
            scroll_to: None,
        };
        v
    }

    /// Returns the regions of the current selection.
    pub fn sel_regions(&self) -> (r: &Vec<Selection>)
        ensures
            r@ == self.sel(),
    {
        &self.selection.regions
    }

    /// The viewed text as a string.
    pub fn text_string(&self) -> (s: String)
        ensures
            encode_utf8(s@) == self.text(),
    {
        self.buffer.text_string()
    }

    /// The length of the viewed text in bytes.
    pub fn text_len(&self) -> (n: usize)
        ensures
            n == self.text().len(),
    {
        rope_len(&self.buffer.rope)
    }

    /// Set the selection to a new value.
    pub fn set_selection(&mut self, selection: SelectionGroup)
        requires
            old(self).wf(),
            regions_wf(selection.regions@),
            regions_in(old(self).text(), selection.regions@),
        ensures
            final(self).text() == old(self).text(),
            final(self).sel() == selection.regions@,
            final(self).wf(),
            final(self).spec_height() == old(self).spec_height(),
    {
        self.selection = selection;
    }

    /// Computes the actual desired amount of scrolling (generally slightly
    /// less than the height of the viewport, to allow overlap).
    fn page_scroll_height(&self) -> (h: isize)
        requires
            self.wf(),
        ensures
            h == spec_page_height(self.spec_height()),
            1 <= h <= 1000000,
    {
        let h = self.height as isize;
        if h - SCROLL_OVERLAP > 1 {
            h - SCROLL_OVERLAP
        } else {
            1
        }
    }

    /// Returns the byte offset corresponding to the given line, clamped to
    /// the end of the text for lines past the last one.
    pub fn offset_of_line(&self, line: usize) -> (off: usize)
        requires
            self.wf(),
        ensures
            off == line_start(self.text(), line as int),
            off <= self.text().len(),
            is_char_boundary(self.text(), off as int),
    {
        let breaks = rope_count_breaks(&self.buffer.rope);
        proof {
            lemma_count_nl_mono(self.text(), 0, self.text().len() as int);
            lemma_line_start_props(self.text(), line as int);
            lemma_line_start_boundary(self.text(), line as int);
        }
        let capped = if line <= breaks {
            line
        } else {
            breaks + 1
        };
        proof {
            if line as int > breaks as int + 1 {
                lemma_line_start_props(self.text(), breaks as int + 1);
            }
        }
        rope_offset_of_line(&self.buffer.rope, capped)
    }

    /// Returns the line number containing the given offset; offsets past the
    /// text end count as the last line. An in-range offset must sit on a
    /// character boundary.
    pub fn line_of_offset(&self, offset: usize) -> (line: usize)
        requires
            self.wf(),
            offset as int <= self.text().len() ==> is_char_boundary(self.text(), offset as int),
        ensures
            line == line_of(self.text(), offset as int),
            line <= total_nl(self.text()),
    {
        let len = rope_len(&self.buffer.rope);
        let capped = if offset <= len {
            offset
        } else {
            len
        };
        proof {
            is_char_boundary_start_end_of_seq(self.text());
            if offset > len {
                lemma_count_nl_clamp(self.text(), offset as int);
            }
            lemma_count_nl_mono(self.text(), capped as int, self.text().len() as int);
        }
        rope_line_of_offset(&self.buffer.rope, capped)
    }

    /// Splits an offset into its line index and the column within that line,
    /// counted in code units. Offsets past the text end count as its end; an
    /// in-range offset must sit on a character boundary.
    pub fn offset_to_line_col(&self, offset: usize) -> (lc: (usize, usize))
        requires
            self.wf(),
            offset as int <= self.text().len() ==> is_char_boundary(self.text(), offset as int),
        ensures
            lc == spec_offset_to_line_col(self.text(), offset as int),
    {
        let len = rope_len(&self.buffer.rope);
        let capped = if offset <= len {
            offset
        } else {
            len
        };
        proof {
            is_char_boundary_start_end_of_seq(self.text());
        }
        let line = self.line_of_offset(capped);
        let base = self.offset_of_line(line);
        proof {
            if offset > len {
                lemma_count_nl_clamp(self.text(), offset as int);
            }
            lemma_line_of_inverse(self.text(), capped as int);
        }
        (line, capped - base)
    }

    /// Computes the offset of the position `col` code units into line `line`,
    /// snapped to the grapheme boundary at or before it, and clamped to the
    /// line's content and the text end. A failed boundary lookup falls back
    /// to the text start.
    pub fn line_col_to_offset(&self, line: usize, col: Column) -> (off: usize)
        requires
            self.wf(),
        ensures
            off == spec_line_col_to_offset(self.text(), line as int, col.0 as int),
            offset_in(self.text(), off as int),
            // Round trip: a column taken from an offset inside this line maps
            // back to the nearest grapheme boundary at or before that offset.
            ({
                let s = self.text();
                let o = line_start(s, line as int) + col.0;
                (o < s.len() && line_of(s, o) == line as int) ==> off as int == snap_prev(s, o + 1)
            }),
    {
        let ghost s = self.text();
        let len = rope_len(&self.buffer.rope);
        let base = self.offset_of_line(line);
        let mut offset: usize = if col.0 > usize::MAX - base {
            usize::MAX
        } else {
            base + col.0
        };
        let ghost raw = offset as int;
        proof {
            is_char_boundary_start_end_of_seq(s);
        }
        if offset >= len {
            offset = len;
            let l2 = self.line_of_offset(offset);
            if l2 <= line {
                return offset;
            }
        } else {
            offset = match rope_prev_grapheme(&self.buffer.rope, offset + 1) {
                Some(p) => p,
                None => 0,
            };
        }
        proof {
            assert(offset as int == spec_snap_step(s, line as int, col.0 as int));
        }
        // Clamp to the end of the line.
        let next_line = if line < usize::MAX {
            line + 1
        } else {
            line
        };
        let next_line_offset = self.offset_of_line(next_line);
        proof {
            if line == usize::MAX {
                lemma_line_start_props(s, line as int);
                lemma_line_start_props(s, line as int + 1);
                lemma_count_nl_mono(s, 0, s.len() as int);
            }
            assert(next_line_offset == line_start(s, line as int + 1));
        }
        if offset >= next_line_offset {
            if let Some(prev) = rope_prev_grapheme(&self.buffer.rope, next_line_offset) {
                offset = prev;
            }
        }
        proof {
            let o = line_start(s, line as int) + col.0;
            if o < s.len() && line_of(s, o) == line as int {
                lemma_line_of_inverse(s, o);
                lemma_count_nl_mono(s, 0, s.len() as int);
            }
        }
        offset
    }
}

/// The specification of a movement.
#[derive(Debug, PartialEq, Eq, Clone, Copy)]
pub enum Movement {
    /// Move to the left by one grapheme cluster.
    Left,
    /// Move to the right by one grapheme cluster.
    Right,
    /// Move to left end of visible line.
    LeftOfLine,
    /// Move to right end of visible line.
    RightOfLine,
    /// Move up one visible line.
    Up,
    /// Move down one visible line.
    Down,
    /// Move up one viewport height.
    UpPage,
    /// Move down one viewport height.
    DownPage,
    /// Move up to the next line that can preserve the cursor position.
    UpExactPosition,
    /// Move down to the next line that can preserve the cursor position.
    DownExactPosition,
    /// Move to the start of the text line.
    StartOfParagraph,
    /// Move to the end of the text line.
    EndOfParagraph,
    /// Move to the end of the text line, or next line if already at end.
    EndOfParagraphKill,
    /// Move to the start of the document.
    StartOfDocument,
    /// Move to the end of the document.
    EndOfDocument,
}

impl View {
    /// The active point of the selection, its line, and the column to use for
    /// vertical motion: the cached one if set, else the active point's.
    fn selection_position(&self, r: Selection, move_up: bool, modify: bool) -> (cl: (Column, usize))
        requires
            self.wf(),
            region_in(self.text(), r),
        ensures
            cl.0 == spec_selection_position(self.text(), r, move_up, modify).0,
            cl.1 as int == spec_selection_position(self.text(), r, move_up, modify).1,
            cl.1 <= total_nl(self.text()),
    {
        let active = if modify {
            r.end
        } else if move_up {
            r.min()
        } else {
            r.max()
        };
        let col = match r.column {
            Some(c) => c,
            None => Column(self.offset_to_line_col(active).1),
        };
        let line = self.line_of_offset(active);
        (col, line)
    }

    /// Compute movement based on vertical motion by the given number of lines.
    /// In non-exceptional cases this preserves the `column` of the region.
    fn vertical_motion(&self, region: Selection, line_delta: isize, modify: bool) -> (r: (
        usize,
        Option<Column>,
    ))
        requires
            self.wf(),
            region_in(self.text(), region),
            -1000000 <= line_delta <= 1000000,
        ensures
            (r.0 as int, r.1) == spec_vertical_motion(
                self.text(),
                region,
                line_delta as int,
                modify,
            ),
            offset_in(self.text(), r.0 as int),
    {
        let ghost s = self.text();
        let (col, line) = self.selection_position(region, line_delta < 0, modify);
        let text_len = rope_len(&self.buffer.rope);
        proof {
            is_char_boundary_start_end_of_seq(s);
        }
        let n_lines = self.line_of_offset(text_len);
        let neg: usize = if line_delta < 0 {
            (-line_delta) as usize
        } else {
            0
        };
        if line_delta < 0 && neg > line {
            return (0, Some(col));
        }
        let target: usize = if line_delta < 0 {
            line - neg
        } else {
            let d = line_delta as usize;
            if d > usize::MAX - line {
                usize::MAX
            } else {
                line + d
            }
        };
        if target > n_lines {
            return (text_len, Some(col));
        }
        (self.line_col_to_offset(target, col), Some(col))
    }

    /// Compute movement based on vertical motion by one line, skipping any
    /// line shorter than the current cursor position.
    fn vertical_motion_exact_pos(&self, region: Selection, move_up: bool, modify: bool) -> (r: (
        usize,
        Option<Column>,
    ))
        requires
            self.wf(),
            region_in(self.text(), region),
        ensures
            (r.0 as int, r.1) == spec_vertical_motion_exact(self.text(), region, move_up, modify),
            offset_in(self.text(), r.0 as int),
    {
        let ghost s = self.text();
        let (col0, init_line) = self.selection_position(region, move_up, modify);
        let text_len = rope_len(&self.buffer.rope);
        proof {
            is_char_boundary_start_end_of_seq(s);
            lemma_count_nl_mono(s, 0, s.len() as int);
        }
        let n_lines = self.line_of_offset(text_len);
        proof {
            lemma_line_start_mono(s, init_line as int, init_line as int + 1);
        }
        let a = self.offset_of_line(init_line + 1);
        let b = self.offset_of_line(init_line);
        let line_length = a - b;
        if move_up && init_line == 0 {
            return (self.line_col_to_offset(init_line, col0), Some(col0));
        }
        // If the active column is past this line's end, use the line's last
        // column (never below zero).
        let col = if line_length < col0.0 {
            if line_length == 0 {
                Column(0)
            } else {
                Column(line_length - 1)
            }
        } else {
            col0
        };
        let mut line: usize = if move_up {
            init_line - 1
        } else {
            init_line + 1
        };
        let ghost start_line = line as int;
        loop
            invariant_except_break
                self.wf(),
                s == self.text(),
                text_len == s.len(),
                n_lines == total_nl(s),
                0 <= line as int <= n_lines as int + 1,
                exact_scan(s, line as int, col.0 as int, move_up, init_line as int, n_lines as int)
                    == exact_scan(
                    s,
                    start_line,
                    col.0 as int,
                    move_up,
                    init_line as int,
                    n_lines as int,
                ),
            ensures
                s == self.text(),
                line as int == exact_scan(
                    s,
                    start_line,
                    col.0 as int,
                    move_up,
                    init_line as int,
                    n_lines as int,
                ),
            decreases (if move_up {
                line as int
            } else {
                n_lines as int + 1 - line as int
            }),
        {
            proof {
                lemma_line_start_mono(s, line as int, line as int + 1);
            }
            let lp = if line == usize::MAX {
                line
            } else {
                line + 1
            };
            proof {
                if line == usize::MAX {
                    lemma_count_nl_mono(s, 0, s.len() as int);
                    lemma_line_start_props(s, line as int);
                    lemma_line_start_props(s, line as int + 1);
                }
            }
            let la = self.offset_of_line(lp);
            let lb = self.offset_of_line(line);
            proof {
                assert(la == line_start(s, line as int + 1));
            }
            let line_len = la - lb;
            if line_len > col.0 {
                break ;
            }
            if line >= n_lines || (line == 0 && move_up) {
                line = init_line;
                break ;
            }
            line = if move_up {
                line - 1
            } else {
                line + 1
            };
        }
        (self.line_col_to_offset(line, col), Some(col))
    }

    /// Compute the result of movement on one selection region.
    pub fn moved_selection_region(&self, movement: Movement, region: Selection, modify: bool) -> (r:
        Selection)
        requires
            self.wf(),
            region_in(self.text(), region),
        ensures
            r == spec_moved_region(self.text(), movement, region, modify, self.spec_height()),
            region_in(self.text(), r),
    {
        let ghost s = self.text();
        let text_len = rope_len(&self.buffer.rope);
        proof {
            is_char_boundary_start_end_of_seq(s);
            lemma_count_nl_mono(s, 0, s.len() as int);
        }
        let eh: (usize, Option<Column>) = match movement {
            Movement::Up => self.vertical_motion(region, -1, modify),
            Movement::Down => self.vertical_motion(region, 1, modify),
            Movement::UpExactPosition => self.vertical_motion_exact_pos(region, true, modify),
            Movement::DownExactPosition => self.vertical_motion_exact_pos(region, false, modify),
            Movement::UpPage => {
                let page = self.page_scroll_height();
                self.vertical_motion(region, -page, modify)
            },
            Movement::DownPage => {
                let page = self.page_scroll_height();
                self.vertical_motion(region, page, modify)
            },
            Movement::StartOfDocument => (0, None),
            Movement::EndOfDocument => (text_len, None),
            Movement::Left => {
                let do_move = region.is_caret() || modify;
                if do_move {
                    match rope_prev_grapheme(&self.buffer.rope, region.end) {
                        Some(p) => (p, None),
                        None => (0, region.column),
                    }
                } else {
                    (region.min(), None)
                }
            },
            Movement::Right => {
                let do_move = region.is_caret() || modify;
                if do_move {
                    match rope_next_grapheme(&self.buffer.rope, region.end) {
                        Some(p) => (p, None),
                        None => (region.end, region.column),
                    }
                } else {
                    (region.max(), None)
                }
            },
            Movement::LeftOfLine => {
                let line = self.line_of_offset(region.end);
                (self.offset_of_line(line), None)
            },
            Movement::RightOfLine => {
                let line = self.line_of_offset(region.end);
                let last_line = line == self.line_of_offset(text_len);
                if last_line {
                    (text_len, None)
                } else {
                    let next_line_offset = self.offset_of_line(line + 1);
                    match rope_prev_grapheme(&self.buffer.rope, next_line_offset) {
                        Some(p) => (p, None),
                        None => (text_len, None),
                    }
                }
            },
            Movement::StartOfParagraph => {
                // The previous hard-line boundary: the start of the line
                // holding the byte before the active point.
                let p = region.end;
                if p == 0 {
                    (0, None)
                } else {
                    let l = self.line_of_offset(p);
                    let ls = self.offset_of_line(l);
                    proof {
                        lemma_line_of_inverse(s, p as int);
                        if p == ls {
                            lemma_line_start_props(s, l as int);
                            assert(l >= 1);
                            assert(s[p as int - 1] == BREAK_BYTE);
                            assert(count_nl(s, p as int) == count_nl(s, p as int - 1) + 1);
                        } else {
                            if s[p as int - 1] == BREAK_BYTE {
                                // Then p would be exactly this line's start.
                                lemma_line_of_inverse(s, p as int - 1);
                                assert(count_nl(s, p as int) == count_nl(s, p as int - 1) + 1);
                                assert(line_start(s, l as int) <= p as int);
                                assert(p as int - 1 < line_start(
                                    s,
                                    count_nl(s, p as int - 1) as int + 1,
                                ));
                                assert(false);
                            }
                            assert(count_nl(s, p as int) == count_nl(s, p as int - 1));
                        }
                    }
                    if p == ls {
                        (self.offset_of_line(l - 1), None)
                    } else {
                        (ls, None)
                    }
                }
            },
            Movement::EndOfParagraph => {
                let l = self.line_of_offset(region.end);
                let breaks = rope_count_breaks(&self.buffer.rope);
                if l < breaks {
                    let nl = self.offset_of_line(l + 1);
                    match rope_prev_grapheme(&self.buffer.rope, nl) {
                        Some(t) => (t, None),
                        None => (region.end, None),
                    }
                } else {
                    (text_len, None)
                }
            },
            Movement::EndOfParagraphKill => {
                let l = self.line_of_offset(region.end);
                let breaks = rope_count_breaks(&self.buffer.rope);
                if l < breaks {
                    let nl = self.offset_of_line(l + 1);
                    match rope_prev_grapheme(&self.buffer.rope, nl) {
                        Some(t) => {
                            if t != region.end {
                                (t, None)
                            } else {
                                (nl, None)
                            }
                        },
                        None => (nl, None),
                    }
                } else {
                    (region.end, None)
                }
            },
        };
        let start = if modify {
            region.start
        } else {
            eh.0
        };
        Selection::new(start, eh.0).with_column(eh.1)
    }

    /// Apply the movement to each region in the selection, and return the
    /// union of the results: every moved region re-inserted into a fresh,
    /// re-merged group.
    pub fn moved_selection(&self, movement: Movement, modify: bool) -> (g: SelectionGroup)
        requires
            self.wf(),
        ensures
            g.regions@ == group_of(
                spec_moved_list(self.text(), self.sel(), movement, modify, self.spec_height()),
            ),
            regions_wf(g.regions@),
            regions_in(self.text(), g.regions@),
    {
        let ghost s = self.text();
        let ghost list = spec_moved_list(s, self.sel(), movement, modify, self.spec_height());
        let mut result = SelectionGroup::new();
        let n = self.selection.regions.len();
        proof {
            assert(list.take(0) =~= Seq::<Selection>::empty());
        }
        let mut i: usize = 0;
        while i < n
            invariant
                self.wf(),
                s == self.text(),
                list == spec_moved_list(s, self.sel(), movement, modify, self.spec_height()),
                n == self.sel().len(),
                0 <= i <= n,
                result.regions@ == group_of(list.take(i as int)),
                regions_wf(result.regions@),
                regions_in(s, result.regions@),
            decreases n - i,
        {
            let region = self.selection.regions[i];
            let new_region = self.moved_selection_region(movement, region, modify);
            proof {
                assert(offsets_from(result.regions@, ok_offsets(s))) by {
                    assert(forall|j: int|
                        0 <= j < result.regions@.len() ==> region_in(
                            s,
                            #[trigger] result.regions@[j],
                        ));
                }
                lemma_add_region_offsets(result.regions@, new_region, ok_offsets(s));
            }
            result.add_region(new_region);
            proof {
                assert(list.take(i as int + 1).drop_last() =~= list.take(i as int));
                assert(list.take(i as int + 1).last() == list[i as int]);
                assert(result.regions@ == group_of(list.take(i as int + 1)));
                assert(regions_in(s, result.regions@)) by {
                    assert(forall|j: int|
                        0 <= j < result.regions@.len() ==> ok_offsets(s).contains(
                            (#[trigger] result.regions@[j]).start as int,
                        ) && ok_offsets(s).contains(result.regions@[j].end as int));
                }
            }
            i = i + 1;
        }
        proof {
            assert(list.take(n as int) =~= list);
        }
        result
    }

    /// Apply the movement to each region in the selection and make the result
    /// the new selection. If `modify` is true the selections are extended,
    /// otherwise each result becomes a caret.
    pub fn move_selection(&mut self, movement: Movement, modify: bool)
        requires
            old(self).wf(),
        ensures
            final(self).text() == old(self).text(),
            final(self).sel() == group_of(
                spec_moved_list(
                    old(self).text(),
                    old(self).sel(),
                    movement,
                    modify,
                    old(self).spec_height(),
                ),
            ),
            final(self).wf(),
            final(self).spec_height() == old(self).spec_height(),
    {
        let g = self.moved_selection(movement, modify);
        self.set_selection(g);
    }
}

impl View {
    /// Edit text: replace every cursor's span with the given text, or with
    /// one line of it per cursor when several cursors receive a multi-line
    /// paste. Cursors are processed in position order, each later span
    /// shifted by the length change so far; every edited cursor collapses to
    /// a caret just after its insertion, and the results are re-merged.
    #[verifier::rlimit(100)]
    pub fn write(&mut self, text: &str)
        requires
            old(self).wf(),
            encode_utf8(text@).len() < usize::MAX,
            old(self).text().len() + old(self).sel().len() * encode_utf8(text@).len()
                < usize::MAX,
        ensures
            ({
                let s0 = old(self).text();
                let sel0 = old(self).sel();
                let t = encode_utf8(text@);
                let pieces = write_pieces(t, sel0.len() as int);
                let k = edited_count(
                    sel0.len() as int,
                    pieces.len() as int,
                    spec_write_multi(t, sel0.len() as int),
                );
                &&& final(self).text() == splice_from(s0, sel0, pieces, k, 0, 0)
                &&& final(self).sel() == group_of(written_list(sel0, pieces, k))
                &&& (k == sel0.len() ==> final(self).wf())
                &&& final(self).spec_height() == old(self).spec_height()
            }),
    {
        let ghost s0 = self.text();
        let ghost sel0 = self.sel();
        let ghost h0 = self.spec_height();
        let n = self.selection.regions.len();
        let ghost t = encode_utf8(text@);
        proof {
            encode_utf8_valid_utf8(text@);
        }
        let tb: &[u8] = text.as_bytes();
        let tlen: usize = text.len();
        proof {
            assert(t.subrange(0, tlen as int) =~= t);
        }

        // Drop trailing line breaks from the input.
        let mut trimmed: usize = tlen;
        while trimmed > 0 && tb[trimmed - 1] == BREAK_BYTE
            invariant
                0 <= trimmed <= tlen,
                tb@ == t,
                tlen == t.len(),
                trim_breaks(t) == trim_breaks(t.subrange(0, trimmed as int)),
                forall|j: int| trimmed <= j < tlen ==> t[j] == BREAK_BYTE,
            decreases trimmed,
        {
            proof {
                assert(t.subrange(0, trimmed as int).drop_last() =~= t.subrange(
                    0,
                    trimmed as int - 1,
                ));
            }
            trimmed = trimmed - 1;
        }
        proof {
            if trimmed == 0 {
                assert(t.subrange(0, 0) =~= Seq::<u8>::empty());
            }
            assert(trim_breaks(t) == t.subrange(0, trimmed as int));
        }
        let ghost tt = t.subrange(0, trimmed as int);

        // Does the trimmed text hold a break, and how many?
        let mut breaks: usize = 0;
        let mut k0: usize = 0;
        while k0 < trimmed
            invariant
                0 <= k0 <= trimmed <= tlen,
                tb@ == t,
                tlen == t.len(),
                tt == t.subrange(0, trimmed as int),
                breaks as int == count_nl(tt, k0 as int),
                breaks <= k0,
            decreases trimmed - k0,
        {
            proof {
                assert(tt[k0 as int] == t[k0 as int]);
            }
            if tb[k0] == BREAK_BYTE {
                breaks = breaks + 1;
            }
            k0 = k0 + 1;
        }
        let multi = breaks > 0 && n > 1;
        let ghost pieces = write_pieces(t, n as int);
        proof {
            assert(count_nl(tt, trimmed as int) == total_nl(tt));
            assert(multi == spec_write_multi(t, n as int));
            if multi {
                lemma_split_count(tt, 0);
                assert(pieces.len() == breaks as int + 1);
            } else {
                assert(pieces.len() == n as int);
            }
        }
        let edited: usize = if multi && breaks < n {
            breaks + 1
        } else {
            n
        };
        proof {
            assert(edited as int == edited_count(n as int, pieces.len() as int, multi));
            assert(edited <= n && edited as int <= pieces.len());
            is_char_boundary_start_end_of_seq(t);
            is_char_boundary_start_end_of_seq(s0);
        }

        let mut new_regions: Vec<Selection> = Vec::new();
        let mut ins: usize = 0;
        let mut rem: usize = 0;
        let mut pos: usize = 0;
        let mut i: usize = 0;
        let ghost mut done: Seq<u8> = Seq::<u8>::empty();
        let ghost mut mi: int = 0;
        proof {
            assert(rope_text(self.buffer.rope) =~= done + s0.subrange(mi, s0.len() as int));
        }
        while i < edited
            invariant
                self.selection.regions@ == sel0,
                self.spec_height() == h0,
                n == sel0.len(),
                0 <= i <= edited,
                edited as int == edited_count(n as int, pieces.len() as int, multi),
                multi == spec_write_multi(t, n as int),
                pieces == write_pieces(t, n as int),
                edited <= n,
                edited as int <= pieces.len(),
                tb@ == t,
                tlen == t.len(),
                t == encode_utf8(text@),
                trimmed as int == tt.len(),
                tt == trim_breaks(t),
                tt == t.subrange(0, trimmed as int),
                trimmed <= tlen,
                forall|j: int| trimmed <= j < tlen ==> t[j] == BREAK_BYTE,
                trimmed > 0 ==> t[trimmed as int - 1] != BREAK_BYTE,
                valid_utf8(t),
                valid_utf8(s0),
                s0.len() < usize::MAX,
                regions_wf(sel0),
                regions_in(s0, sel0),
                s0.len() + n * tlen < usize::MAX,
                ins as int == ins_sum(pieces, i as int),
                rem as int == rem_sum(sel0, i as int),
                ins as int <= i as int * tlen,
                0 <= mi <= s0.len(),
                mi == if i == 0 {
                    0int
                } else {
                    sel0[i as int - 1].spec_max() as int
                },
                rem as int <= mi,
                is_char_boundary(s0, mi),
                valid_utf8(done),
                done.len() == mi + ins - rem,
                rope_text(self.buffer.rope) == done + s0.subrange(mi, s0.len() as int),
                valid_utf8(rope_text(self.buffer.rope)),
                done + splice_from(s0, sel0, pieces, edited as int, i as int, mi) == splice_from(
                    s0,
                    sel0,
                    pieces,
                    edited as int,
                    0,
                    0,
                ),
                new_regions@.len() == i as int,
                forall|j: int|
                    0 <= j < i ==> new_regions@[j] == written_region(
                        sel0,
                        pieces,
                        edited as int,
                        j,
                    ),
                forall|j: int|
                    0 <= j < i ==> (#[trigger] new_regions@[j]).end as int <= done.len()
                        && is_char_boundary(done, new_regions@[j].end as int),
                multi ==> 0 <= pos <= trimmed,
                multi ==> is_char_boundary(t, pos as int),
                (multi && (i as int) < pieces.len()) ==> pieces.skip(i as int)
                    == split_breaks_from(tt, pos as int),
            decreases edited - i,
        {
            let ghost cur = rope_text(self.buffer.rope);
            let r = self.selection.regions[i];
            proof {
                // This region's edges are boundaries of the old text, and it
                // starts at or after the previous region's end.
                assert(region_in(s0, sel0[i as int]));
                if i > 0 {
                    assert(crate::selection::pair_ok(sel0[i as int - 1], sel0[i as int]));
                }
                vstd::arithmetic::mul::lemma_mul_inequality(i as int, n as int, tlen as int);
                vstd::arithmetic::mul::lemma_mul_inequality(i as int + 1, n as int, tlen as int);
                assert((i as int + 1) * tlen == i as int * tlen + tlen) by (nonlinear_arith);
            }
            // The piece this cursor receives, as a byte window into the text.
            let (pstart, pend): (usize, usize) = if multi {
                let e = scan_break(tb, pos, trimmed);
                (pos, e)
            } else {
                (0, tlen)
            };
            proof {
                is_char_boundary_start_end_of_seq(s0);
                lemma_write_piece_window(
                    t,
                    tt,
                    trimmed as int,
                    pieces,
                    n as int,
                    multi,
                    i as int,
                    pstart as int,
                    pend as int,
                );
                lemma_boundary_in_suffix(t, pstart as int, pend as int);
            }
            // Slice the piece out of the input string.
            let (_head, tail) = text.split_at(pstart);
            let (piece_str, _rest) = tail.split_at(pend - pstart);
            let ghost piece = pieces[i as int];
            proof {
                assert(tail.spec_bytes() =~= t.subrange(pstart as int, tlen as int));
                assert(is_char_boundary(tail.spec_bytes(), pend as int - pstart as int));
                assert(piece_str.spec_bytes() =~= t.subrange(pstart as int, pend as int));
                assert(encode_utf8(piece_str@) == piece);
            }
            // The shifted span of this cursor in the current text.
            let rmin = r.min();
            let rmax = r.max();
            let a = (rmin + ins) - rem;
            let b = (rmax + ins) - rem;
            proof {
                assert(mi <= rmin as int);
                // Both shifted edges are boundaries of the current text.
                vstd::utf8::valid_utf8_split(s0, mi);
                lemma_boundary_in_suffix(s0, mi, rmin as int);
                lemma_boundary_in_suffix(s0, mi, rmax as int);
                lemma_boundary_shift(done, s0.subrange(mi, s0.len() as int), rmin - mi);
                lemma_boundary_shift(done, s0.subrange(mi, s0.len() as int), rmax - mi);
                assert(a as int == done.len() + (rmin - mi));
                assert(b as int == done.len() + (rmax - mi));
            }
            rope_replace(&mut self.buffer.rope, a, b, piece_str);
            let p = a + (pend - pstart);
            new_regions.push(Selection::new(p, p));
            proof {
                lemma_write_step(
                    s0,
                    sel0,
                    pieces,
                    edited as int,
                    i as int,
                    mi,
                    done,
                    rope_text(self.buffer.rope),
                    piece,
                );
                let done2 = done + s0.subrange(mi, rmin as int) + piece;
                assert(p as int == done2.len());
                assert(new_regions@[i as int] == written_region(
                    sel0,
                    pieces,
                    edited as int,
                    i as int,
                ));
                done = done2;
                mi = rmax as int;
            }
            ins = ins + (pend - pstart);
            rem = rem + (rmax - rmin);
            if multi {
                pos = if pend < trimmed {
                    pend + 1
                } else {
                    pend
                };
            }
            i = i + 1;
        }
        // Cursors beyond the pieces keep their regions, unedited.
        while i < n
            invariant
                self.selection.regions@ == sel0,
                n == sel0.len(),
                edited <= i <= n,
                new_regions@.len() == i as int,
                forall|j: int|
                    0 <= j < i ==> new_regions@[j] == written_region(
                        sel0,
                        pieces,
                        edited as int,
                        j,
                    ),
                forall|j: int|
                    0 <= j < edited ==> (#[trigger] new_regions@[j]).end as int <= done.len()
                        && is_char_boundary(done, new_regions@[j].end as int),
            decreases n - i,
        {
            let keep = self.selection.regions[i];
            new_regions.push(keep);
            i = i + 1;
        }
        proof {
            assert(new_regions@ =~= written_list(sel0, pieces, edited as int));
        }
        let g = regroup(&new_regions);
        let ghost final_text = rope_text(self.buffer.rope);
        proof {
            // The loop's splice target has been reached in full.
            assert(splice_from(s0, sel0, pieces, edited as int, edited as int, mi) =~= s0.subrange(
                mi,
                s0.len() as int,
            ));
            assert(final_text == splice_from(s0, sel0, pieces, edited as int, 0, 0));
            if edited == n {
                // Every region is now a caret on a boundary of the new text.
                vstd::utf8::valid_utf8_split(s0, mi);
                assert forall|j: int|
                    0 <= j < new_regions@.len() implies ok_offsets(final_text).contains(
                    (#[trigger] new_regions@[j]).start as int,
                ) && ok_offsets(final_text).contains(new_regions@[j].end as int) by {
                    lemma_boundary_extend(
                        done,
                        s0.subrange(mi, s0.len() as int),
                        new_regions@[j].end as int,
                    );
                    assert(new_regions@[j].start == new_regions@[j].end);
                    assert(offset_in(final_text, new_regions@[j].end as int));
                }
                crate::selection::lemma_group_of_offsets(new_regions@, ok_offsets(final_text));
                assert(regions_in(final_text, g.regions@)) by {
                    assert(forall|j: int|
                        0 <= j < g.regions@.len() ==> ok_offsets(final_text).contains(
                            (#[trigger] g.regions@[j]).start as int,
                        ) && ok_offsets(final_text).contains(g.regions@[j].end as int));
                }
            }
        }
        self.selection = g;
    }
}

/// Each region of the selection after the extension step of a deletion:
/// carets are extended by the movement step in selecting mode, regions with a
/// selection stay.
pub open spec fn spec_deletion_list(
    s: Seq<u8>,
    sel: Seq<Selection>,
    step: Movement,
    height: int,
) -> Seq<Selection> {
    Seq::new(
        sel.len(),
        |i: int|
            if sel[i].spec_is_caret() {
                spec_moved_region(s, step, sel[i], true, height)
            } else {
                sel[i]
            },
    )
}

impl View {
    /// Apply one text replacement to the buffer alone. Selections are not
    /// adjusted: the caller must recompute or reset them afterwards.
    pub fn apply_change(&mut self, start: usize, end: usize, text: &str)
        requires
            old(self).wf(),
            start <= end <= old(self).text().len(),
            offset_in(old(self).text(), start as int),
            offset_in(old(self).text(), end as int),
            old(self).text().len() - (end - start) + encode_utf8(text@).len() < usize::MAX,
        ensures
            final(self).text() == old(self).text().subrange(0, start as int) + encode_utf8(text@)
                + old(self).text().subrange(end as int, old(self).text().len() as int),
            final(self).sel() == old(self).sel(),
            valid_utf8(final(self).text()),
            final(self).text().len() < usize::MAX,
            final(self).spec_height() == old(self).spec_height(),
    {
        let ghost s0 = self.text();
        rope_replace(&mut self.buffer.rope, start, end, text);
        proof {
            is_char_boundary_start_end_of_seq(s0);
            lemma_valid_slice(s0, 0, start as int);
            lemma_valid_slice(s0, end as int, s0.len() as int);
            encode_utf8_valid_utf8(text@);
            assert(s0.subrange(0, start as int) =~= s0.subrange(0, s0.len() as int).subrange(
                0,
                start as int,
            ));
            vstd::utf8::valid_utf8_concat(s0.subrange(0, start as int), encode_utf8(text@));
            vstd::utf8::valid_utf8_concat(
                s0.subrange(0, start as int) + encode_utf8(text@),
                s0.subrange(end as int, s0.len() as int),
            );
            assert((s0.subrange(0, start as int) + encode_utf8(text@)) + s0.subrange(
                end as int,
                s0.len() as int,
            ) =~= self.text());
        }
    }

    /// Do a delete operation: a cursor with a selection removes just that
    /// span, a caret first extends by the movement step in selecting mode,
    /// and every selection is then removed through the empty-text write path.
    pub fn do_delete_operation(&mut self, step: Movement)
        requires
            old(self).wf(),
        ensures
            ({
                let s0 = old(self).text();
                let ext = group_of(
                    spec_deletion_list(s0, old(self).sel(), step, old(self).spec_height()),
                );
                let t = Seq::<u8>::empty();
                let pieces = write_pieces(t, ext.len() as int);
                &&& final(self).text() == splice_from(s0, ext, pieces, ext.len() as int, 0, 0)
                &&& final(self).sel() == group_of(written_list(ext, pieces, ext.len() as int))
                &&& final(self).wf()
                &&& final(self).spec_height() == old(self).spec_height()
            }),
    {
        let ghost s = self.text();
        let ghost list = spec_deletion_list(s, self.sel(), step, self.spec_height());
        let mut extended = SelectionGroup::new();
        let n = self.selection.regions.len();
        proof {
            assert(list.take(0) =~= Seq::<Selection>::empty());
        }
        let mut i: usize = 0;
        while i < n
            invariant
                self.wf(),
                s == self.text(),
                list == spec_deletion_list(s, self.sel(), step, self.spec_height()),
                n == self.sel().len(),
                0 <= i <= n,
                extended.regions@ == group_of(list.take(i as int)),
                regions_wf(extended.regions@),
                regions_in(s, extended.regions@),
            decreases n - i,
        {
            let region = self.selection.regions[i];
            let new_region = if region.is_caret() {
                self.moved_selection_region(step, region, true)
            } else {
                region
            };
            proof {
                assert(region_in(s, self.sel()[i as int]));
                assert(offsets_from(extended.regions@, ok_offsets(s))) by {
                    assert(forall|j: int|
                        0 <= j < extended.regions@.len() ==> region_in(
                            s,
                            #[trigger] extended.regions@[j],
                        ));
                }
                lemma_add_region_offsets(extended.regions@, new_region, ok_offsets(s));
            }
            extended.add_region(new_region);
            proof {
                assert(list.take(i as int + 1).drop_last() =~= list.take(i as int));
                assert(list.take(i as int + 1).last() == list[i as int]);
                assert(extended.regions@ == group_of(list.take(i as int + 1)));
                assert(regions_in(s, extended.regions@)) by {
                    assert(forall|j: int|
                        0 <= j < extended.regions@.len() ==> ok_offsets(s).contains(
                            (#[trigger] extended.regions@[j]).start as int,
                        ) && ok_offsets(s).contains(extended.regions@[j].end as int));
                }
            }
            i = i + 1;
        }
        proof {
            assert(list.take(n as int) =~= list);
        }
        self.set_selection(extended);
        proof {
            reveal_strlit("");
            assert(encode_utf8(""@) =~= Seq::<u8>::empty());
        }
        self.write("");
    }
}

/// The offsets that can serve as region edges in text `s`.
pub open spec fn ok_offsets(s: Seq<u8>) -> Set<int> {
    Set::new(|o: int| offset_in(s, o))
}

/// The index of the first line break in `tb[from..limit)`, or `limit` when
/// there is none.
fn scan_break(tb: &[u8], from: usize, limit: usize) -> (e: usize)
    requires
        from <= limit <= tb@.len(),
    ensures
        from <= e <= limit,
        forall|j: int| from <= j < e ==> tb@[j] != BREAK_BYTE,
        e < limit ==> tb@[e as int] == BREAK_BYTE,
{
    let mut e: usize = from;
    while e < limit
        invariant
            from <= e <= limit <= tb@.len(),
            forall|j: int| from <= j < e ==> tb@[j] != BREAK_BYTE,
        decreases limit - e,
    {
        if tb[e] == BREAK_BYTE {
            return e;
        }
        e = e + 1;
    }
    e
}

/// Inserts each region of the list in turn into a fresh group, re-merging.
fn regroup(list: &Vec<Selection>) -> (g: SelectionGroup)
    ensures
        g.regions@ == group_of(list@),
        regions_wf(g.regions@),
{
    let ghost l = list@;
    let mut g = SelectionGroup::new();
    proof {
        assert(l.take(0) =~= Seq::<Selection>::empty());
    }
    let mut i: usize = 0;
    while i < list.len()
        invariant
            0 <= i <= l.len(),
            l == list@,
            g.regions@ == group_of(l.take(i as int)),
            regions_wf(g.regions@),
        decreases l.len() - i,
    {
        g.add_region(list[i]);
        proof {
            assert(l.take(i as int + 1).drop_last() =~= l.take(i as int));
            assert(l.take(i as int + 1).last() == l[i as int]);
        }
        i = i + 1;
    }
    proof {
        assert(l.take(l.len() as int) =~= l);
    }
    g
}

/// The active point of a region, the column to track, and the active line.
pub open spec fn spec_selection_position(s: Seq<u8>, r: Selection, move_up: bool, modify: bool) -> (
    Column,
    int,
) {
    let active: int = if modify {
        r.end as int
    } else if move_up {
        r.spec_min() as int
    } else {
        r.spec_max() as int
    };
    let line = line_of(s, active);
    let col = match r.column {
        Some(c) => c,
        None => Column((active - line_start(s, line)) as usize),
    };
    (col, line)
}

/// Vertical motion by `delta` lines: clamped to the text start when moving
/// above the first line and to the text end when moving below the last, and
/// remembering the tracked column in every case.
pub open spec fn spec_vertical_motion(s: Seq<u8>, r: Selection, delta: int, modify: bool) -> (
    int,
    Option<Column>,
) {
    let cp = spec_selection_position(s, r, delta < 0, modify);
    let col = cp.0;
    let line = cp.1;
    let n_lines = line_of(s, s.len() as int);
    if delta < 0 && -delta > line {
        (0, Some(col))
    } else {
        let target = if delta < 0 {
            line + delta
        } else if line + delta > usize::MAX {
            usize::MAX as int
        } else {
            line + delta
        };
        if target > n_lines {
            (s.len() as int, Some(col))
        } else {
            (spec_line_col_to_offset(s, target, col.0 as int), Some(col))
        }
    }
}

/// The line where an exact-position scan stops: the first line in the given
/// direction long enough for the column, or the starting line when the scan
/// runs off the text.
pub open spec fn exact_scan(
    s: Seq<u8>,
    line: int,
    col: int,
    move_up: bool,
    init_line: int,
    n_lines: int,
) -> int
    decreases (if move_up {
        line
    } else {
        n_lines + 1 - line
    }),
{
    let line_len = line_start(s, line + 1) - line_start(s, line);
    if line_len > col {
        line
    } else if line >= n_lines || (line <= 0 && move_up) {
        init_line
    } else if move_up {
        exact_scan(s, line - 1, col, move_up, init_line, n_lines)
    } else {
        exact_scan(s, line + 1, col, move_up, init_line, n_lines)
    }
}

/// Vertical motion skipping lines shorter than the tracked column.
pub open spec fn spec_vertical_motion_exact(
    s: Seq<u8>,
    r: Selection,
    move_up: bool,
    modify: bool,
) -> (int, Option<Column>) {
    let cp = spec_selection_position(s, r, move_up, modify);
    let col0 = cp.0;
    let init_line = cp.1;
    let n_lines = line_of(s, s.len() as int);
    let line_length = line_start(s, init_line + 1) - line_start(s, init_line);
    if move_up && init_line == 0 {
        (spec_line_col_to_offset(s, init_line, col0.0 as int), Some(col0))
    } else {
        let col: int = if line_length < col0.0 as int {
            if line_length <= 0 {
                0
            } else {
                line_length - 1
            }
        } else {
            col0.0 as int
        };
        let start_line = if move_up {
            init_line - 1
        } else {
            init_line + 1
        };
        let target = exact_scan(s, start_line, col, move_up, init_line, n_lines);
        (spec_line_col_to_offset(s, target, col), Some(Column(col as usize)))
    }
}

/// The nearest hard-line start at or before `p` (the text start if `p` is in
/// the first line).
pub open spec fn spec_start_of_paragraph(s: Seq<u8>, p: int) -> int {
    if p <= 0 {
        0
    } else {
        line_start(s, line_of(s, p - 1))
    }
}

/// The first hard-line boundary strictly after `p`, if any: the start of the
/// next line.
pub open spec fn spec_next_hard_break(s: Seq<u8>, p: int) -> Option<int> {
    if line_of(s, p) < total_nl(s) {
        Some(line_start(s, line_of(s, p) + 1))
    } else {
        None
    }
}

/// The end of the hard line holding `p`: just before its trailing break, the
/// text end when `p` is in the last line, and `p` itself when the boundary
/// lookup fails.
pub open spec fn spec_end_of_paragraph(s: Seq<u8>, p: int) -> int {
    match spec_next_hard_break(s, p) {
        Some(nl) => match prev_grapheme_of(s, nl) {
            Some(t) => t as int,
            None => p,
        },
        None => s.len() as int,
    }
}

/// Like `spec_end_of_paragraph`, but consuming the trailing break when `p`
/// already sits at the line's end, and leaving `p` unmoved in the last line.
pub open spec fn spec_end_of_paragraph_kill(s: Seq<u8>, p: int) -> int {
    match spec_next_hard_break(s, p) {
        Some(nl) => match prev_grapheme_of(s, nl) {
            Some(t) => if t as int != p {
                t as int
            } else {
                nl
            },
            None => nl,
        },
        None => p,
    }
}

/// The new end offset and tracked column that one movement computes for one
/// region.
pub open spec fn spec_moved_eh(
    s: Seq<u8>,
    movement: Movement,
    r: Selection,
    modify: bool,
    height: int,
) -> (int, Option<Column>) {
    match movement {
        Movement::Up => spec_vertical_motion(s, r, -1, modify),
        Movement::Down => spec_vertical_motion(s, r, 1, modify),
        Movement::UpExactPosition => spec_vertical_motion_exact(s, r, true, modify),
        Movement::DownExactPosition => spec_vertical_motion_exact(s, r, false, modify),
        Movement::UpPage => spec_vertical_motion(s, r, -spec_page_height(height), modify),
        Movement::DownPage => spec_vertical_motion(s, r, spec_page_height(height), modify),
        Movement::StartOfDocument => (0, None),
        Movement::EndOfDocument => (s.len() as int, None),
        Movement::Left => {
            if r.spec_is_caret() || modify {
                match prev_grapheme_of(s, r.end as int) {
                    Some(p) => (p as int, None),
                    None => (0, r.column),
                }
            } else {
                (r.spec_min() as int, None)
            }
        },
        Movement::Right => {
            if r.spec_is_caret() || modify {
                match next_grapheme_of(s, r.end as int) {
                    Some(p) => (p as int, None),
                    None => (r.end as int, r.column),
                }
            } else {
                (r.spec_max() as int, None)
            }
        },
        Movement::LeftOfLine => (line_start(s, line_of(s, r.end as int)), None),
        Movement::RightOfLine => {
            let line = line_of(s, r.end as int);
            if line == line_of(s, s.len() as int) {
                (s.len() as int, None)
            } else {
                match prev_grapheme_of(s, line_start(s, line + 1)) {
                    Some(p) => (p as int, None),
                    None => (s.len() as int, None),
                }
            }
        },
        Movement::StartOfParagraph => (spec_start_of_paragraph(s, r.end as int), None),
        Movement::EndOfParagraph => (spec_end_of_paragraph(s, r.end as int), None),
        Movement::EndOfParagraphKill => (spec_end_of_paragraph_kill(s, r.end as int), None),
    }
}

/// The region one movement computes: the new end with its tracked column, and
/// the old start kept when extending, else collapsed to the new end.
pub open spec fn spec_moved_region(
    s: Seq<u8>,
    movement: Movement,
    r: Selection,
    modify: bool,
    height: int,
) -> Selection {
    let eh = spec_moved_eh(s, movement, r, modify, height);
    let start: int = if modify {
        r.start as int
    } else {
        eh.0
    };
    Selection { start: start as usize, end: eh.0 as usize, column: eh.1 }
}

/// The moved counterpart of each region of the selection, in order.
pub open spec fn spec_moved_list(
    s: Seq<u8>,
    sel: Seq<Selection>,
    movement: Movement,
    modify: bool,
    height: int,
) -> Seq<Selection> {
    Seq::new(sel.len(), |i: int| spec_moved_region(s, movement, sel[i], modify, height))
}

/// Boundary clamp: moving up from the first line lands at the text start, and
/// moving down from the last line lands at the text end.
pub proof fn lemma_vertical_clamp(s: Seq<u8>, r: Selection, modify: bool)
    requires
        s.len() < usize::MAX,
    ensures
        spec_selection_position(s, r, true, modify).1 == 0 ==> spec_vertical_motion(
            s,
            r,
            -1,
            modify,
        ).0 == 0,
        spec_selection_position(s, r, false, modify).1 == line_of(s, s.len() as int)
            ==> spec_vertical_motion(s, r, 1, modify).0 == s.len() as int,
{
    lemma_count_nl_mono(s, 0, s.len() as int);
}

/// Column memory: vertical motion of a region with a cached column carries
/// that column into its result unchanged.
pub proof fn lemma_vertical_motion_keeps_column(s: Seq<u8>, r: Selection, delta: int, modify: bool)
    requires
        r.column is Some,
    ensures
        spec_vertical_motion(s, r, delta, modify).1 == r.column,
{
}

/// The text with its trailing line breaks removed.
pub open spec fn trim_breaks(t: Seq<u8>) -> Seq<u8>
    decreases t.len(),
{
    if t.len() > 0 && t.last() == BREAK_BYTE {
        trim_breaks(t.drop_last())
    } else {
        t
    }
}

/// The pieces of `t` between its line breaks, from offset `i` on: what
/// splitting at every break yields.
pub open spec fn split_breaks_from(t: Seq<u8>, i: int) -> Seq<Seq<u8>>
    decreases t.len() - i,
{
    if i < 0 || i > t.len() {
        Seq::<Seq<u8>>::empty()
    } else {
        let nb = next_break(t, i);
        if i < nb <= t.len() && t[nb - 1] == BREAK_BYTE {
            seq![t.subrange(i, nb - 1)] + split_breaks_from(t, nb)
        } else {
            seq![t.subrange(i, t.len() as int)]
        }
    }
}

/// Splitting yields one piece per break, plus one.
pub proof fn lemma_split_count(t: Seq<u8>, i: int)
    requires
        0 <= i <= t.len(),
    ensures
        split_breaks_from(t, i).len() == total_nl(t) - count_nl(t, i) + 1,
    decreases t.len() - i,
{
    crate::textmodel::lemma_next_break_props(t, i);
    crate::textmodel::lemma_next_break_count(t, i);
    lemma_count_nl_mono(t, i, t.len() as int);
    let nb = next_break(t, i);
    if i < nb <= t.len() && t[nb - 1] == BREAK_BYTE {
        lemma_split_count(t, nb);
    }
}

/// Whether `write` hands one line to each cursor: several cursors and a break
/// inside the trimmed text.
pub open spec fn spec_write_multi(t: Seq<u8>, n: int) -> bool {
    n > 1 && total_nl(trim_breaks(t)) > 0
}

/// What each cursor receives: its own line of the trimmed text in the
/// line-per-cursor case, else the whole text.
pub open spec fn write_pieces(t: Seq<u8>, n: int) -> Seq<Seq<u8>> {
    if spec_write_multi(t, n) {
        split_breaks_from(trim_breaks(t), 0)
    } else {
        Seq::new(n as nat, |i: int| t)
    }
}

/// How many cursors receive text: all of them, unless the split yields fewer
/// pieces than cursors.
pub open spec fn edited_count(n: int, npieces: int, multi: bool) -> int {
    if multi && npieces < n {
        npieces
    } else {
        n
    }
}

/// The text after replacing, for each edited cursor from `i` on, its span
/// with its piece: the spliced remainder from position `pos`.
pub open spec fn splice_from(
    s: Seq<u8>,
    regions: Seq<Selection>,
    pieces: Seq<Seq<u8>>,
    k: int,
    i: int,
    pos: int,
) -> Seq<u8>
    decreases k - i,
{
    if i >= k || i >= regions.len() || i >= pieces.len() {
        s.subrange(pos, s.len() as int)
    } else {
        s.subrange(pos, regions[i].spec_min() as int) + pieces[i] + splice_from(
            s,
            regions,
            pieces,
            k,
            i + 1,
            regions[i].spec_max() as int,
        )
    }
}

/// Bytes inserted in front of cursor `i`: the lengths of the earlier pieces.
pub open spec fn ins_sum(pieces: Seq<Seq<u8>>, i: int) -> int
    decreases i,
{
    if i <= 0 {
        0
    } else {
        ins_sum(pieces, i - 1) + pieces[i - 1].len()
    }
}

/// Bytes removed in front of cursor `i`: the widths of the earlier spans.
pub open spec fn rem_sum(regions: Seq<Selection>, i: int) -> int
    decreases i,
{
    if i <= 0 {
        0
    } else {
        rem_sum(regions, i - 1) + (regions[i - 1].spec_max() - regions[i - 1].spec_min())
    }
}

/// Each edited cursor collapses to a caret just after its inserted piece, at
/// its span's shifted position; cursors past the pieces stay as they were.
pub open spec fn written_region(
    regions: Seq<Selection>,
    pieces: Seq<Seq<u8>>,
    k: int,
    i: int,
) -> Selection {
    if i < k {
        let p = regions[i].spec_min() + ins_sum(pieces, i) - rem_sum(regions, i)
            + pieces[i].len();
        Selection { start: p as usize, end: p as usize, column: None }
    } else {
        regions[i]
    }
}

/// The selection regions after a write, cursor by cursor, before re-merging.
pub open spec fn written_list(regions: Seq<Selection>, pieces: Seq<Seq<u8>>, k: int) -> Seq<
    Selection,
> {
    Seq::new(regions.len(), |i: int| written_region(regions, pieces, k, i))
}

/// The byte window `[pstart, pend)` of the input text holds exactly piece `i`
/// of a write, ends on character boundaries, and leaves the remaining pieces
/// behind the break that follows it.
proof fn lemma_write_piece_window(
    t: Seq<u8>,
    tt: Seq<u8>,
    trimmed: int,
    pieces: Seq<Seq<u8>>,
    n: int,
    multi: bool,
    i: int,
    pstart: int,
    pend: int,
)
    requires
        valid_utf8(t),
        0 <= trimmed <= t.len(),
        tt == t.subrange(0, trimmed),
        tt == trim_breaks(t),
        forall|j: int| trimmed <= j < t.len() ==> t[j] == BREAK_BYTE,
        trimmed > 0 ==> t[trimmed - 1] != BREAK_BYTE,
        multi == spec_write_multi(t, n),
        pieces == write_pieces(t, n),
        0 <= i < pieces.len(),
        multi ==> {
            &&& 0 <= pstart <= pend <= trimmed
            &&& pieces.skip(i) == split_breaks_from(tt, pstart)
            &&& is_char_boundary(t, pstart)
            &&& (forall|j: int| pstart <= j < pend ==> t[j] != BREAK_BYTE)
            &&& (pend < trimmed ==> t[pend] == BREAK_BYTE)
        },
        !multi ==> pstart == 0 && pend == t.len(),
    ensures
        pieces[i] == t.subrange(pstart, pend),
        is_char_boundary(t, pstart),
        is_char_boundary(t, pend),
        valid_utf8(t.subrange(pstart, pend)),
        pieces[i].len() <= t.len(),
        (multi && pend < trimmed) ==> pieces.skip(i + 1) == split_breaks_from(tt, pend + 1)
            && is_char_boundary(t, pend + 1) && 0 <= pend + 1 <= trimmed,
        (multi && pend == trimmed) ==> pieces.len() - i == 1,
{
    is_char_boundary_start_end_of_seq(t);
    if multi {
        assert forall|j: int| pstart <= j < pend implies tt[j] != BREAK_BYTE by {
            assert(tt[j] == t[j]);
        }
        if pend < trimmed {
            assert(tt[pend] == t[pend]);
        }
        lemma_next_break_exact(tt, pstart, pend);
        if pend < trimmed {
            let rest = split_breaks_from(tt, pend + 1);
            assert(split_breaks_from(tt, pstart) == seq![tt.subrange(pstart, pend)] + rest);
            assert(pieces.skip(i)[0] == pieces[i]);
            assert(pieces[i] == tt.subrange(pstart, pend));
            assert(pieces.skip(i + 1).len() == rest.len());
            assert forall|j: int| 0 <= j < rest.len() implies pieces.skip(i + 1)[j] == rest[j] by {
                assert(pieces.skip(i + 1)[j] == pieces[i + 1 + j]);
                assert(pieces.skip(i)[j + 1] == pieces[i + 1 + j]);
                assert((seq![tt.subrange(pstart, pend)] + rest)[j + 1] == rest[j]);
            }
            assert(pieces.skip(i + 1) =~= rest);
            lemma_boundary_after_break(t, pend);
        } else {
            assert(next_break(tt, pstart) == tt.len());
            assert(split_breaks_from(tt, pstart) == seq![tt.subrange(pstart, tt.len() as int)]);
            assert(pieces.skip(i)[0] == pieces[i]);
            assert(pieces[i] == tt.subrange(pstart, trimmed));
            assert(pieces.skip(i).len() == pieces.len() - i);
            assert(pieces.skip(i).len() == 1);
            assert(pieces.len() - i == 1);
        }
        assert(pieces[i] =~= t.subrange(pstart, pend));
    } else {
        assert(pieces[i] == t);
        assert(pieces[i] =~= t.subrange(pstart, pend));
    }
    if pend < t.len() {
        assert(t[pend] == BREAK_BYTE);
        assert(!vstd::utf8::is_continuation_byte(t[pend]));
        vstd::utf8::is_char_boundary_iff_not_is_continuation_byte(t, pend);
    }
    lemma_valid_slice(t, pstart, pend);
}

/// One write step: replacing the shifted span of cursor `i` in the current
/// text grows the finished prefix by the untouched gap and the inserted
/// piece, keeps the text valid, preserves the splice target and every
/// boundary of the old prefix, and ends the new prefix on a boundary.
proof fn lemma_write_step(
    s0: Seq<u8>,
    sel0: Seq<Selection>,
    pieces: Seq<Seq<u8>>,
    edited: int,
    i: int,
    mi: int,
    done: Seq<u8>,
    cur2: Seq<u8>,
    piece: Seq<u8>,
)
    requires
        0 <= i < edited,
        edited <= sel0.len(),
        edited <= pieces.len(),
        valid_utf8(s0),
        valid_utf8(done),
        valid_utf8(piece),
        regions_wf(sel0),
        regions_in(s0, sel0),
        0 <= mi <= sel0[i].spec_min() as int,
        is_char_boundary(s0, mi),
        piece == pieces[i],
        ({
            let cur = done + s0.subrange(mi, s0.len() as int);
            let a = done.len() + sel0[i].spec_min() - mi;
            let b = done.len() + sel0[i].spec_max() - mi;
            cur2 == cur.subrange(0, a as int) + piece + cur.subrange(b as int, cur.len() as int)
        }),
    ensures
        ({
            let done2 = done + s0.subrange(mi, sel0[i].spec_min() as int) + piece;
            &&& cur2 == done2 + s0.subrange(sel0[i].spec_max() as int, s0.len() as int)
            &&& valid_utf8(done2)
            &&& valid_utf8(cur2)
            &&& done2.len() == done.len() + (sel0[i].spec_min() - mi) + piece.len()
            &&& done + splice_from(s0, sel0, pieces, edited, i, mi) == done2 + splice_from(
                s0,
                sel0,
                pieces,
                edited,
                i + 1,
                sel0[i].spec_max() as int,
            )
            &&& is_char_boundary(done2, done2.len() as int)
            &&& forall|q: int|
                0 <= q <= done.len() && is_char_boundary(done, q) ==> is_char_boundary(done2, q)
        }),
{
    let rmin = sel0[i].spec_min() as int;
    let rmax = sel0[i].spec_max() as int;
    let cur = done + s0.subrange(mi, s0.len() as int);
    let a = done.len() + rmin - mi;
    let b = done.len() + rmax - mi;
    let snip = s0.subrange(mi, rmin);
    is_char_boundary_start_end_of_seq(s0);
    assert(region_in(s0, sel0[i]));
    lemma_valid_slice(s0, mi, rmin);
    let done2 = done + snip + piece;
    assert(region_in(s0, sel0[i]));
    assert(cur.subrange(0, a) =~= done + snip);
    assert(cur.subrange(b, cur.len() as int) =~= s0.subrange(rmax, s0.len() as int));
    assert(cur2 =~= done2 + s0.subrange(rmax, s0.len() as int));
    vstd::utf8::valid_utf8_concat(done, snip);
    vstd::utf8::valid_utf8_concat(done + snip, piece);
    lemma_valid_slice(s0, rmax, s0.len() as int);
    vstd::utf8::valid_utf8_concat(done2, s0.subrange(rmax, s0.len() as int));
    assert(splice_from(s0, sel0, pieces, edited, i, mi) == snip + piece + splice_from(
        s0,
        sel0,
        pieces,
        edited,
        i + 1,
        rmax,
    ));
    assert(done2 + splice_from(s0, sel0, pieces, edited, i + 1, rmax) =~= done + splice_from(
        s0,
        sel0,
        pieces,
        edited,
        i,
        mi,
    ));
    is_char_boundary_start_end_of_seq(done2);
    vstd::utf8::valid_utf8_concat(snip, piece);
    assert forall|q: int|
        0 <= q <= done.len() && is_char_boundary(done, q) implies is_char_boundary(done2, q) by {
        lemma_boundary_extend(done, snip + piece, q);
        assert(done + (snip + piece) =~= done2);
    }
}

/// The desired scroll amount for one page movement.
pub open spec fn spec_page_height(height: int) -> int {
    if height - 2 > 1 {
        height - 2
    } else {
        1
    }
}

/// The (line, column) pair of an offset, clamped to the text end.
pub open spec fn spec_offset_to_line_col(s: Seq<u8>, off: int) -> (usize, usize) {
    let o = if off <= s.len() {
        off
    } else {
        s.len() as int
    };
    let line = line_of(s, o);
    (line as usize, (o - line_start(s, line)) as usize)
}

/// Where a prospective position `i - 1` snaps back to: the grapheme boundary
/// before `i`, or the text start when there is none.
pub open spec fn snap_prev(s: Seq<u8>, i: int) -> int {
    match prev_grapheme_of(s, i) {
        Some(p) => p as int,
        None => 0,
    }
}

/// The offset reached before the end-of-line clamp of `spec_line_col_to_offset`.
pub open spec fn spec_snap_step(s: Seq<u8>, line: int, col: int) -> int {
    let base = line_start(s, line);
    let raw = if base + col > usize::MAX {
        usize::MAX as int
    } else {
        base + col
    };
    if raw >= s.len() {
        s.len() as int
    } else {
        snap_prev(s, raw + 1)
    }
}

/// The offset of the position `col` code units into line `line`: the raw sum
/// snapped to a grapheme boundary, kept within the line and the text.
pub open spec fn spec_line_col_to_offset(s: Seq<u8>, line: int, col: int) -> int {
    let base = line_start(s, line);
    let raw = if base + col > usize::MAX {
        usize::MAX as int
    } else {
        base + col
    };
    if raw >= s.len() && line_of(s, s.len() as int) <= line {
        s.len() as int
    } else {
        let stepped = spec_snap_step(s, line, col);
        let next_line_offset = line_start(s, line + 1);
        if stepped >= next_line_offset {
            match prev_grapheme_of(s, next_line_offset) {
                Some(p) => p as int,
                None => stepped,
            }
        } else {
            stepped
        }
    }
}

} // verus!
