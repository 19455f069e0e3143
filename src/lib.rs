//! Renders text as a minimap of Unicode Braille characters.
//!
//! Each input line is reduced to the span of its non-whitespace characters;
//! lines are grouped into dot rows by a vertical scale, four rows make a
//! frame, and each frame becomes one output line whose Braille cells show
//! which positions the rows cover, after a horizontal scale.
pub mod boundary;
pub mod decode;
pub mod frame;
pub mod glyph;
pub mod minimap;
pub mod scale;
pub mod text;

pub use boundary::{line_boundary, Boundary};
pub use decode::{decode_line, Encoding};
pub use frame::{scale_frame, write_frame};
pub use glyph::braille_glyph;
pub use minimap::{Minimap, Options};
pub use scale::{scale, Scale};
pub use text::{render, write_to_string};
