//! Core of a plain-text editor: a line-structured text buffer addressed by
//! `(paragraph, byte)` positions, a lazily refreshed per-line layout cache,
//! and the two-way mapping between byte offsets and pixel geometry.
//!
//! Text is held as raw UTF-8 bytes and all byte indices are kept on code-point
//! boundaries.  Geometry is modeled in integer device units (`i64`), so every
//! coordinate computation is exact and proved free of overflow.

pub mod editor;
pub mod font;
pub mod geom;
pub mod laws;
pub mod layout;
pub mod model;
pub mod position;
pub mod query;
pub mod shape;
pub mod text;
pub mod utf8;

pub use editor::{Editor, TextLine};
pub use font::Font;
pub use geom::{IPoint, Rect};
pub use layout::{layout_rows, shape};
pub use position::{Movement, PosRange, TextPosition};
pub use query::{PaintOp, PaintOpts};
pub use shape::{ShapeResult, ShapeRow, ShapeRun};
pub use utf8::is_utf8;
