//! Colorized, width-bounded rendering of search matches, and a compact
//! offset-indexed store of the matches for later lookup by ordinal.

pub mod common;
pub mod paint;
pub mod print_terminal;
pub mod ripgrep_json;
pub mod store;
pub mod text;
pub mod views;

pub use common::CgVgError;
pub use print_terminal::{iter_colored, number_of_digits, pad_number, wrap_text};
pub use store::{locate_entry, parse_u32, store_encode, store_read, text_entry, text_entry_line};
pub use ripgrep_json::{Match, Stats, SubMatch, Text};
pub use views::{color_submatch, match_view, padding_and_wrap, submatches_fit};
