//! The text behind an AsciiDoc editor.
pub mod dom;
pub mod edits;
pub mod highlight;
pub mod history;
pub mod indent;
pub mod inline;
pub mod keys;
pub mod laws;
pub mod list;
pub mod marking;
pub mod number;
pub mod page;
pub mod render;
pub mod round_trip;
pub mod safety;
pub mod source;
pub mod sync;
pub mod table;
pub mod text;
pub mod toolbar;
pub mod wysiwyg;
