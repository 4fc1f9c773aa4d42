//! In-memory block device: the reference adapter for exercising the record
//! store and the byte-addressed I/O without a real backing medium.

use crate::block_dev::BlockDevice;
use crate::codec::read_range;
use vstd::prelude::*;

verus! {

/// A block device whose medium is a vector of blocks held in memory.
///
/// A transfer fails exactly when the block number is out of range, and the
/// device counts every successful physical block write, so a test can check
/// how many block transfers an operation performed.
pub struct MemBlockDevice {
    block_size: u16,
    blocks: Vec<Vec<u8>>,
    writes: usize,
}

impl MemBlockDevice {
    /// A zero-filled device of `num_blocks` blocks of `block_size` bytes.
    pub fn new(block_size: u16, num_blocks: usize) -> (d: MemBlockDevice)
        requires
            block_size > 0,
        ensures
            d.wf(),
            d.spec_block_size() == block_size as nat,
            d.blocks().len() == num_blocks,
            forall|i: int|
                0 <= i < num_blocks ==> #[trigger] d.blocks()[i] == Seq::new(
                    block_size as nat,
                    |j: int| 0u8,
                ),
            d.spec_write_count() == 0,
            d.reliable(),
    {
        let mut blocks: Vec<Vec<u8>> = Vec::new();
        let mut i: usize = 0;
        while i < num_blocks
            invariant
                i <= num_blocks,
                blocks@.len() == i,
                forall|k: int|
                    0 <= k < i ==> (#[trigger] blocks@[k])@ == Seq::new(
                        block_size as nat,
                        |j: int| 0u8,
                    ),
            decreases num_blocks - i,
        {
            blocks.push(crate::codec::zero_vec(block_size as usize));
            i = i + 1;
        }
        let d = MemBlockDevice { block_size, blocks, writes: 0 };
        proof {
            assert(forall|i: int|
                0 <= i < num_blocks ==> #[trigger] d.blocks()[i] == d.blocks@[i]@);
        }
        d
    }

    /// How many physical block writes the device has performed.
    pub fn write_count(&self) -> (r: usize)
        ensures
            r as nat == self.spec_write_count(),
    {
        self.writes
    }

    /// The number of physical block writes so far.
    pub closed spec fn spec_write_count(&self) -> nat {
        self.writes as nat
    }
}

impl BlockDevice for MemBlockDevice {
    closed spec fn spec_block_size(&self) -> nat {
        self.block_size as nat
    }

    closed spec fn blocks(&self) -> Seq<Seq<u8>> {
        self.blocks@.map_values(|b: Vec<u8>| b@)
    }

    closed spec fn wf(&self) -> bool {
        0 < self.block_size && forall|i: int|
            0 <= i < self.blocks@.len() ==> (#[trigger] self.blocks@[i])@.len()
                == self.block_size
    }

    closed spec fn reliable(&self) -> bool {
        true
    }

    proof fn wf_facts(&self) {
    }

    fn get_phy_block_size(&self) -> (r: u16) {
        self.block_size
    }

    fn read_block(&self, block_id: usize, buf: &mut Vec<u8>) -> (r: bool) {
        if block_id < self.blocks.len() {
            let src: &Vec<u8> = &self.blocks[block_id];
            let copy = read_range(src, 0, src.len());
            assert(copy@ =~= src@);
            *buf = copy;
            true
        } else {
            false
        }
    }

    fn write_block(&mut self, block_id: usize, buf: &Vec<u8>) -> (r: bool) {
        if block_id < self.blocks.len() {
            let copy = read_range(buf, 0, buf.len());
            assert(copy@ =~= buf@);
            self.blocks.set(block_id, copy);
            if self.writes < usize::MAX {
                self.writes = self.writes + 1;
            }
            proof {
                assert(self.blocks() =~= old(self).blocks().update(block_id as int, buf@));
            }
            true
        } else {
            false
        }
    }
}

} // verus!
