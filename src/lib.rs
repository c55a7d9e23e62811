//! A tile-based interval index over block-compressed record files.
use vstd::prelude::*;

pub mod codec;
pub mod consistency;
pub mod coverage;
pub mod filter;
pub mod format;
pub mod index;
pub mod loader;
pub mod query;
pub mod records;
pub mod round_trip;
pub mod sort;
pub mod text;
