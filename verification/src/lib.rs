//! Conversion of Go game records from the GIB format to SGF.
//!
//! A conversion reads a GIB text into a game record and writes the record
//! as the text of an SGF collection with one game tree. Nothing but the two
//! texts is touched: no file is read or written here.
//!
//! - [`go`] and [`time`] hold what a game record is made of: colors, points,
//!   moves, handicaps, scores, results and dates.
//! - [`lexer`] is the cursor with which a text is read, [`chars`] cuts string
//!   slices between characters, and [`text`] writes and finds numerals and
//!   characters.
//! - [`gib`] reads a GIB text; [`gib::format`] says what each text holds.
//! - [`sgf`] is the SGF property tree and its text.
//! - [`gib2sgf`] converts; [`files`] cleans the names of GIB files.

pub mod chars;
pub mod files;
pub mod gib;
pub mod gib2sgf;
pub mod go;
pub mod lexer;
pub mod sgf;
pub mod text;
pub mod time;

pub use crate::gib::reader::GibParseError;
pub use crate::gib::Gib;
pub use crate::gib2sgf::gib_to_sgf;
