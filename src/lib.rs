//! A binary container format: a comment, a timestamp with two derived
//! fields, and an ordered list of named byte blobs, encoded into one flat
//! byte sequence and decoded back.
pub mod laws;
pub mod le;
pub mod codec;
pub mod model;

pub use codec::{read_string_until_0x00, FormatError, MAGIC_NUMBER};
pub use model::{ClockError, Container, File, Y_DIFFERENCE, Z_DIFFERENCE};
