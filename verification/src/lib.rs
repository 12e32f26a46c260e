//! GridLock launcher core: the block-blob format, its checksums and the decisions that keep
//! an installed game up to date, with their contracts and proofs.

pub mod adler;
pub mod blob;
pub mod digest;
pub mod host;
pub mod install;
pub mod launcher;
pub mod net;
pub mod search;
pub mod transfer;
