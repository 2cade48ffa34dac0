//! A text-buffer editing engine: a multi-region selection model over an
//! editable text buffer, with cursor movement, coordinate transforms and
//! multi-cursor edits.
//!
//! Selections are kept sorted and non-overlapping; movement commands are
//! computed per region and re-merged; vertical motion remembers its target
//! column across short lines; edits run over all cursors in position order,
//! shifting each by the length change so far.

pub mod ropeops;
pub mod selection;
pub mod textmodel;
pub mod view;

pub use selection::Column;
pub use selection::Selection;
pub use selection::SelectionGroup;
pub use selection::remove_n_at;
pub use view::Buffer;
pub use view::BufferId;
pub use view::Movement;
pub use view::View;
