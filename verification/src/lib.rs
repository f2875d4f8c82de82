//! Builds and updates two curated Japanese datasets, a kanjifile and a
//! wordfile, from the upstream dictionaries they are derived from.
//!
//! A skeleton holds the identity of every entry: a permanent numeric id and the
//! text it stands for. The builders in [`output::kanjifile_skeleton`] and
//! [`output::wordfile_skeleton`] append entries for what upstream has gained and
//! never touch what a skeleton holds. The enrichers in [`output::kanjifile`] and
//! [`output::wordfile`] fill the descriptive fields of a skeleton from upstream
//! data. Each of them either succeeds or leaves its skeleton as it was.
//!
//! [`input`] holds the records of the upstream dictionaries, [`kanjifile`] and
//! [`wordfile`] the two datasets, [`text`] the order and the folding of texts,
//! and [`ordered`] sorting and lookup over ordered values.

pub mod input;
pub mod kanjifile;
pub mod ordered;
pub mod output;
pub mod text;
pub mod wordfile;
