//! A resizable key-value index built on extendible hashing with
//! two-choice bucket groups and a shared overflow bucket.

pub mod config;
pub mod model;
pub mod word;
pub mod hash;
pub mod kvblock;
pub mod utils;
pub mod mm;
pub mod subtable;
pub mod bits;
pub mod directory;
pub mod mempool;
pub mod facts;
pub mod split;
pub mod client;
pub mod locking;
pub mod resize;
pub mod computepool;
pub mod laws;
