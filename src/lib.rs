//! Streaming extraction of title readings from an encyclopedia dump.
//!
//! The dump is read in large blocks; each block is cut at a character
//! boundary, split into article records, and every record is handed to
//! an extraction step that derives a phonetic reading for its title.
//! The collected lines are finally sorted and deduplicated.

pub mod seqs;
pub mod stream;
pub mod text;
pub mod kana;
pub mod pattern;
pub mod extract;
pub mod sink;
pub mod lookup;
