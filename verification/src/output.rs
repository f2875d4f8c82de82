//! The builders, which keep the skeletons up to date with upstream, and the
//! enrichers, which fill a skeleton with what upstream says of its entries.

pub mod kanjifile;
pub mod kanjifile_skeleton;
pub mod wordfile;
pub mod wordfile_skeleton;
