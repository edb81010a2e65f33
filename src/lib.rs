//! Shifting Table Filesystem: a metadata table that migrates across a reserved
//! region of a block device and is found again by binary search over a trail of
//! counters stamped into the tail of every sector.
use vstd::prelude::*;

pub mod codec;
pub mod error;
pub mod formatter;
pub mod layout;
pub mod locator;
pub mod metadata_space;
pub mod mount;
pub mod table;
pub mod trail;
