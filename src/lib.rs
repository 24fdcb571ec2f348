//! Render a YAML value tree as the text of a Lua table constructor.
//!
//! The tree is the library's own [`Value`]; reading YAML text into it is left
//! to the caller. Every rendering function states its output exactly over the
//! spec functions of [`render`] and [`escape`].
pub mod escape;
pub mod render;
pub mod value;

pub use escape::escape_string;
pub use render::{get_indent, parse, walk};
pub use value::{fits_within, ParseError, Value};
