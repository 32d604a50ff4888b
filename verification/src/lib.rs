//! Word-frequency counting.
//!
//! A text is split into words, and the words are counted in one of two ways:
//! with an open-addressing hash table that probes linearly and doubles its
//! capacity when it is full, or with a plain list that is searched from its
//! start for every word. Either way the result can be ranked by count and
//! cut to a report of the most frequent words.
//!
//! - `hasher`: the djb2 hash and the `Hashable` trait.
//! - `slots`, `probing`, `growth`: the model of the hash table as a sequence
//!   of slots, with what is proved of it.
//! - `table`: the hash table itself.
//! - `entries`, `baseline`: words with their counts as a list, and the
//!   linear-scan table.
//! - `tally`: what counting words means.
//! - `ranking`: descending order of count, and the report.
//! - `text`: splitting a text into words.
//! - `analysis`: counting the words of a text with either table.

pub mod analysis;
pub mod baseline;
pub mod entries;
pub mod growth;
pub mod hasher;
pub mod probing;
pub mod ranking;
pub mod slots;
pub mod table;
pub mod tally;
pub mod text;
