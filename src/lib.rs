//! Incremental update packages.
//!
//! A workspace directory changes over time. Each pack run rebuilds, from the metadata
//! of every published version, the file tree that the last version left
//! ([`tree::replay_history`]), compares the workspace with it under path rules
//! ([`diff::diff`]), and writes a tar container that holds the bytes of every added or
//! modified file followed by the version's metadata ([`writer::TarWriter`]), whose
//! offsets point at those bytes. [`codec`] encodes the metadata, [`pack`] holds the
//! decisions of a run and the version index, and [`serve`] the range requests with
//! which clients read published containers. [`repack`] proves that replaying a version's
//! own change list leaves the workspace with nothing new to pack.
pub mod model;
pub mod codec;
pub mod tree;
pub mod diff;
pub mod writer;
pub mod serve;
pub mod pack;
pub mod repack;
