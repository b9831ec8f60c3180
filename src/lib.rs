//! An append-only commit log kept as a chain of segments, each pairing a
//! length-prefixed store with a fixed-width offset index.
//!
//! The library works on the byte images of the segment files; the program
//! around it reads those images from disk and writes them back.
use vstd::prelude::*;

pub mod commit_log;
pub mod directory;
pub mod endian;
pub mod index;
pub mod record;
pub mod segment;
pub mod store;
