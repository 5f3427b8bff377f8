//! Shaping of storage-pool listings.
//!
//! The crate turns a flat listing of datasets (filesystems, snapshots and
//! bookmarks) into a summary: the pools that own them, one sorted list per
//! category, and the space used and available, rendered for people to read.
//! Sizes are decoded and encoded in whole numbers throughout. What binary
//! floating point of double precision would round, is rounded here the
//! same way, once, to 53 significant bits.

pub mod aggregate;
pub mod decimal;
pub mod literal;
pub mod order;
pub mod rounding;
pub mod size;
pub mod sorted;
pub mod text;
pub mod types;
