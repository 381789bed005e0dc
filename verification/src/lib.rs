pub mod collections;
pub mod manifest;
pub mod rawpath;
pub mod read;

use vstd::prelude::*;

verus! {

/// Size in bytes of one backup data block.
pub const BLOCK_SIZE: usize = 65536;

} // verus!
