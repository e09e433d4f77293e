//! Verified layout and selection logic behind the text input element and the
//! selectable list component: where a byte offset of the text lies among its
//! lines, which parts of which lines a selection covers, how the text is split
//! into styled runs, and how a list moves, confirms and cancels its selection.
pub mod input;
pub mod list;
