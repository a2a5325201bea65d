//! Reading and writing gettext PO translation catalogs.
//!
//! The reader turns catalog text into entries; the writer renders entries back
//! into catalog text. Both are total functions on their inputs, stated exactly
//! over the spec functions of `model`, `reader` and `writer`. `laws` and
//! `round_trip` prove what holds across them, among it that writing the
//! entries read from a text and reading them again gives the same entries.

pub mod error;
pub mod laws;
pub mod model;
pub mod reader;
pub mod round_trip;
pub mod text;
pub mod writer;

pub use error::Error;
pub use model::{AutoComments, Po};
pub use reader::parse_po;
pub use writer::langs_to_string;
