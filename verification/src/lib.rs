//! On-disk storage core of a small XFS-inspired filesystem: a byte-addressable
//! block I/O layer over a physical block device, and a single-block sorted
//! record store ("B+tree operator") that keeps fixed-size key/value records
//! inside one physical block.

pub mod block_dev;
pub mod btree;
pub mod btree_op;
pub mod codec;
pub mod dstruct;
pub mod mem_blk;
pub mod mstruct;
pub mod pound_fs;
pub mod util;
