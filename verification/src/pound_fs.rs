//! Filesystem formatting (mkfs): divides the device into allocation groups
//! and writes a superblock at the start of each group through the
//! byte-addressed block I/O layer.

use crate::block_dev::{bytes_of_blocks, BlockDevice};
use crate::btree_op::StoreError;
use crate::codec::{splice, u16_le, u32_le, u64_le, u8_seq};
use crate::dstruct::{
    spec_superblock_bytes, SuperBlock, SUPER_BLOCK_MAGIC, SUPER_BLOCK_SIZE,
};
use crate::util::{ffs, spec_ffs};
use vstd::prelude::*;

verus! {

/// Parameters of a filesystem to format.
pub struct MkfsOption {
    /// Total size in bytes.
    pub size: usize,
    /// Logical block size in bytes.
    pub blocksize: u32,
    /// Logical blocks per allocation group.
    pub agblocks: u32,
}

/// A mounted device together with its superblock.
pub struct MountPoint<D: BlockDevice> {
    /// The backing block device.
    pub dev: D,
    /// The filesystem superblock.
    pub superblock: SuperBlock,
}

impl<D: BlockDevice> MountPoint<D> {
    /// A mount point over `dev` described by `superblock`.
    pub fn new(dev: D, superblock: SuperBlock) -> (mp: MountPoint<D>)
        ensures
            mp.dev == dev,
            mp.superblock == superblock,
    {
        MountPoint { dev, superblock }
    }
}

/// Parameters for initializing one allocation group.
pub struct InitAgOption {
    /// The group's number, from zero.
    pub ag_no: u32,
    /// The group's size in bytes (the last group may be smaller).
    pub ag_size: u32,
    /// The group's first logical block.
    pub start_block: usize,
}

/// Writes the group's on-disk headers; today that is the superblock copy at
/// the group's first sector.  A failed block transfer is propagated; bytes
/// outside the superblock's span are never changed.
pub fn init_ag<D: BlockDevice>(mp: &mut MountPoint<D>, opt: &InitAgOption) -> (r: Result<
    (),
    StoreError,
>)
    requires
        old(mp).dev.wf(),
        opt.start_block * old(mp).superblock.blocksize <= usize::MAX - SUPER_BLOCK_SIZE,
    ensures
        final(mp).dev.wf(),
        final(mp).superblock == old(mp).superblock,
        final(mp).dev.spec_block_size() == old(mp).dev.spec_block_size(),
        final(mp).dev.blocks().len() == old(mp).dev.blocks().len(),
        ({
            let off = opt.start_block * old(mp).superblock.blocksize as int;
            let old_bytes = bytes_of_blocks(
                old(mp).dev.blocks(),
                old(mp).dev.spec_block_size(),
            );
            let new_bytes = bytes_of_blocks(
                final(mp).dev.blocks(),
                final(mp).dev.spec_block_size(),
            );
            &&& (r is Ok ==> off + SUPER_BLOCK_SIZE <= old_bytes.len() && new_bytes == splice(
                old_bytes,
                off,
                spec_superblock_bytes(old(mp).superblock),
            ))
            &&& forall|i: int|
                0 <= i < old_bytes.len() && !(off <= i < off + SUPER_BLOCK_SIZE)
                    ==> #[trigger] new_bytes[i] == old_bytes[i]
            &&& final(mp).dev.reliable() == old(mp).dev.reliable()
            &&& (old(mp).dev.reliable() && off + SUPER_BLOCK_SIZE <= old_bytes.len() ==> r
                is Ok)
        }),
{
    let sb_sector_off = opt.start_block * (mp.superblock.blocksize as usize);
    let sb_encoded = mp.superblock.encode();
    if mp.dev.write_all_at(sb_sector_off, &sb_encoded) {
        Ok(())
    } else {
        Err(StoreError::Io)
    }
}

/// The superblock bytes that formatting with `opt` writes: the format
/// magic, the block and group geometry derived from `opt`, and every other
/// field zero.
pub open spec fn spec_mkfs_sb_bytes(opt: MkfsOption) -> Seq<u8> {
    u32_le(SUPER_BLOCK_MAGIC) + u32_le(opt.blocksize) + u32_le(
        ((opt.size as int / opt.blocksize as int) as u32),
    ) + u32_le(0) + u32_le(0) + Seq::new(16, |i: int| 0u8) + u32_le(0) + u32_le(0) + u32_le(0)
        + u32_le(opt.agblocks) + u32_le(
        (((opt.size as int + opt.blocksize as int * opt.agblocks as int - 1) / (
        opt.blocksize as int * opt.agblocks as int)) as u32),
    ) + u32_le(0) + u32_le(0) + u16_le(0) + u16_le(0) + u16_le(0) + u16_le(0) + Seq::new(
        16,
        |i: int| 0u8,
    ) + u8_seq(((spec_ffs(opt.blocksize as nat) - 1) as u8)) + u8_seq(0) + u8_seq(0) + u8_seq(0)
        + u8_seq(((spec_ffs(opt.agblocks as nat) - 1) as u8)) + u8_seq(0) + u8_seq(0) + u8_seq(0)
        + u64_le(0) + u64_le(0) + u64_le(0) + u64_le(0) + u64_le(0) + u64_le(0) + u32_le(0)
        + u32_le(0) + u32_le(0)
}

/// Whether byte `i` lies inside the superblock copy of group `a`.
pub open spec fn in_sb_copy(i: int, a: int, ag_size: int) -> bool {
    a * ag_size <= i < a * ag_size + SUPER_BLOCK_SIZE
}

/// Formats the device: fills in the superblock geometry from `opt`, divides
/// the space into `agcount = ceil(size / (blocksize * agblocks))` groups,
/// and initializes each group in turn.  Any failed block transfer aborts
/// formatting.
#[verifier::rlimit(100)]
#[verifier::spinoff_prover]
pub fn make_fs<D: BlockDevice>(dev: D, opt: MkfsOption) -> (r: Result<D, StoreError>)
    requires
        dev.wf(),
        0 < opt.blocksize,
        0 < opt.agblocks,
        opt.blocksize as int * opt.agblocks as int <= u32::MAX,
        SUPER_BLOCK_SIZE <= opt.blocksize as int * opt.agblocks as int,
        opt.size as int / (opt.blocksize as int) <= u32::MAX,
        opt.size + opt.blocksize as int * opt.agblocks as int <= usize::MAX,
        opt.size + SUPER_BLOCK_SIZE <= usize::MAX,
    ensures
        r matches Ok(d) ==> ({
            let ag_size = opt.blocksize as int * opt.agblocks as int;
            let ag_count = (opt.size + ag_size - 1) / ag_size;
            let old_bytes = bytes_of_blocks(dev.blocks(), dev.spec_block_size());
            let new_bytes = bytes_of_blocks(d.blocks(), d.spec_block_size());
            &&& d.wf()
            &&& d.spec_block_size() == dev.spec_block_size()
            &&& d.blocks().len() == dev.blocks().len()
            &&& forall|a: int|
                0 <= a < ag_count ==> #[trigger] new_bytes.subrange(
                    a * ag_size,
                    a * ag_size + SUPER_BLOCK_SIZE,
                ) == spec_mkfs_sb_bytes(opt)
            &&& forall|i: int|
                0 <= i < old_bytes.len() && !(exists|a: int|
                    0 <= a < ag_count && #[trigger] in_sb_copy(i, a, ag_size))
                    ==> #[trigger] new_bytes[i] == old_bytes[i]
        }),
        r is Err ==> (r matches Err(e) && e == StoreError::Io),
        opt.size == 0 ==> r is Ok,
        ({
            let ag_size = opt.blocksize as int * opt.agblocks as int;
            let ag_count = (opt.size + ag_size - 1) / ag_size;
            dev.reliable() && (ag_count - 1) * ag_size + SUPER_BLOCK_SIZE <= bytes_of_blocks(
                dev.blocks(),
                dev.spec_block_size(),
            ).len() ==> r is Ok
        }),
{
    let mut mp = MountPoint::new(dev, SuperBlock::new());
    mp.superblock.blocksize = opt.blocksize;
    mp.superblock.blocksize_bits = ffs(opt.blocksize) - 1;
    mp.superblock.agblocks = opt.agblocks;
    mp.superblock.agblocks_bits = ffs(opt.agblocks) - 1;
    mp.superblock.dblocks = (opt.size / opt.blocksize as usize) as u32;

    let ag_size: u32 = opt.blocksize * opt.agblocks;
    let ag_count: usize = (opt.size + ag_size as usize - 1) / ag_size as usize;
    let last_ag_size: u32 = (opt.size as u32) % ag_size;
    mp.superblock.agcount = ag_count as u32;

    proof {
        lemma_mkfs_counts(opt);
        reveal(spec_superblock_bytes);
        assert(spec_superblock_bytes(mp.superblock) =~= spec_mkfs_sb_bytes(opt));
        assert(spec_superblock_bytes(mp.superblock).len() == SUPER_BLOCK_SIZE);
    }
    let ghost sb_bytes = spec_mkfs_sb_bytes(opt);
    let ghost orig = bytes_of_blocks(mp.dev.blocks(), mp.dev.spec_block_size());
    let ghost ag_size_i = ag_size as int;

    let mut ag_no: usize = 0;
    while ag_no < ag_count
        invariant
            mp.dev.wf(),
            mp.superblock.blocksize == opt.blocksize,
            0 < opt.blocksize,
            0 < opt.agblocks,
            ag_size_i == opt.blocksize as int * opt.agblocks as int,
            ag_size as int == ag_size_i,
            ag_size_i <= u32::MAX,
            SUPER_BLOCK_SIZE <= ag_size_i,
            ag_no <= ag_count,
            ag_count as int == (opt.size + ag_size_i - 1) / ag_size_i,
            ag_count as int * ag_size_i <= opt.size + ag_size_i - 1,
            opt.size + ag_size_i <= usize::MAX,
            spec_superblock_bytes(mp.superblock) == sb_bytes,
            sb_bytes.len() == SUPER_BLOCK_SIZE,
            orig == bytes_of_blocks(dev.blocks(), dev.spec_block_size()),
            mp.dev.spec_block_size() == dev.spec_block_size(),
            mp.dev.blocks().len() == dev.blocks().len(),
            mp.dev.reliable() == dev.reliable(),
            forall|a: int|
                0 <= a < ag_no ==> #[trigger] bytes_of_blocks(
                    mp.dev.blocks(),
                    mp.dev.spec_block_size(),
                ).subrange(a * ag_size_i, a * ag_size_i + SUPER_BLOCK_SIZE) == sb_bytes,
            forall|i: int|
                0 <= i < orig.len() && !(exists|a: int|
                    0 <= a < ag_no && #[trigger] in_sb_copy(i, a, ag_size_i))
                    ==> #[trigger] bytes_of_blocks(mp.dev.blocks(), mp.dev.spec_block_size())[i]
                    == orig[i],
        decreases ag_count - ag_no,
    {
        let cur_ag_size: u32 = if ag_no + 1 == ag_count {
            last_ag_size
        } else {
            ag_size
        };
        proof {
            lemma_mkfs_loop_bounds(opt, ag_no as int, ag_count as int);
        }
        let start_block: usize = ag_no * opt.agblocks as usize;
        let ghost pre = bytes_of_blocks(mp.dev.blocks(), mp.dev.spec_block_size());
        let r = init_ag(
            &mut mp,
            &InitAgOption { ag_size: cur_ag_size, start_block, ag_no: ag_no as u32 },
        );
        if r.is_err() {
            proof {
                // inside the loop at least one group exists, so the size is
                // not zero
                assert(opt.size > 0) by {
                    if opt.size == 0 {
                        vstd::arithmetic::div_mod::lemma_basic_div(
                            ag_size_i - 1,
                            ag_size_i,
                        );
                    }
                }
                // on a reliable device whose last superblock copy fits, the
                // write cannot have failed
                if dev.reliable() && (ag_count as int - 1) * ag_size_i + SUPER_BLOCK_SIZE
                    <= orig.len() {
                    assert(ag_no as int * ag_size_i <= (ag_count as int - 1) * ag_size_i)
                        by (nonlinear_arith)
                        requires
                            ag_no as int <= ag_count as int - 1,
                            0 <= ag_size_i,
                    ;
                    assert(start_block * opt.blocksize as int == ag_no as int * ag_size_i)
                        by (nonlinear_arith)
                        requires
                            start_block == ag_no as int * opt.agblocks as int,
                            ag_size_i == opt.blocksize as int * opt.agblocks as int,
                    ;
                    assert(false);
                }
            }
            return Err(StoreError::Io);
        }
        proof {
            let now = bytes_of_blocks(mp.dev.blocks(), mp.dev.spec_block_size());
            let off = ag_no as int * ag_size_i;
            assert(start_block * opt.blocksize as int == off) by (nonlinear_arith)
                requires
                    off == ag_no as int * ag_size_i,
                    start_block == ag_no as int * opt.agblocks as int,
                    ag_size_i == opt.blocksize as int * opt.agblocks as int,
            ;
            lemma_mkfs_step(pre, now, orig, sb_bytes, ag_size_i, ag_no as int);
        }
        ag_no = ag_no + 1;
    }
    Ok(mp.dev)
}


/// One formatting step: after splicing the superblock copy of group
/// `ag_no` into the flat view, every group up to and including `ag_no`
/// carries the copy and every byte outside the copies is still original.
proof fn lemma_mkfs_step(
    pre: Seq<u8>,
    now: Seq<u8>,
    orig: Seq<u8>,
    sb: Seq<u8>,
    ag_size: int,
    ag_no: int,
)
    requires
        0 < ag_size,
        SUPER_BLOCK_SIZE <= ag_size,
        sb.len() == SUPER_BLOCK_SIZE,
        pre.len() == orig.len(),
        now == splice(pre, ag_no * ag_size, sb),
        0 <= ag_no,
        ag_no * ag_size + SUPER_BLOCK_SIZE <= orig.len(),
        forall|a: int|
            0 <= a < ag_no ==> #[trigger] pre.subrange(a * ag_size, a * ag_size
                + SUPER_BLOCK_SIZE) == sb,
        forall|i: int|
            0 <= i < orig.len() && !(exists|a: int|
                0 <= a < ag_no && #[trigger] in_sb_copy(i, a, ag_size)) ==> #[trigger] pre[i]
                == orig[i],
    ensures
        now.len() == orig.len(),
        forall|a: int|
            0 <= a < ag_no + 1 ==> #[trigger] now.subrange(a * ag_size, a * ag_size
                + SUPER_BLOCK_SIZE) == sb,
        forall|i: int|
            0 <= i < orig.len() && !(exists|a: int|
                0 <= a < ag_no + 1 && #[trigger] in_sb_copy(i, a, ag_size)) ==> #[trigger] now[i]
                == orig[i],
{
    let off = ag_no * ag_size;
    assert forall|a: int|
        0 <= a < ag_no + 1 implies #[trigger] now.subrange(a * ag_size, a * ag_size
        + SUPER_BLOCK_SIZE) == sb by {
        if a == ag_no {
            assert(now.subrange(off, off + SUPER_BLOCK_SIZE) =~= sb);
        } else {
            assert(a * ag_size + ag_size <= off) by (nonlinear_arith)
                requires
                    a + 1 <= ag_no,
                    0 <= ag_size,
                    off == ag_no * ag_size,
            ;
            assert(0 <= a * ag_size) by (nonlinear_arith)
                requires
                    0 <= a,
                    0 <= ag_size,
            ;
            assert(now.subrange(a * ag_size, a * ag_size + SUPER_BLOCK_SIZE) =~= pre.subrange(
                a * ag_size,
                a * ag_size + SUPER_BLOCK_SIZE,
            ));
        }
    }
    assert forall|i: int|
        0 <= i < orig.len() && !(exists|a: int|
            0 <= a < ag_no + 1 && #[trigger] in_sb_copy(i, a, ag_size)) implies #[trigger] now[i]
        == orig[i] by {
        assert(!in_sb_copy(i, ag_no, ag_size));
        assert(now[i] == pre[i]);
    }
}

/// Arithmetic facts about the group geometry that `make_fs` computes.
proof fn lemma_mkfs_counts(opt: MkfsOption)
    requires
        0 < opt.blocksize,
        0 < opt.agblocks,
        opt.blocksize as int * opt.agblocks as int <= u32::MAX,
        opt.size + opt.blocksize as int * opt.agblocks as int <= usize::MAX,
    ensures
        ({
            let ag_size = opt.blocksize as int * opt.agblocks as int;
            let ag_count = (opt.size + ag_size - 1) / ag_size;
            &&& 0 <= ag_count
            &&& ag_count * ag_size <= opt.size + ag_size - 1
        }),
{
    let ag_size = opt.blocksize as int * opt.agblocks as int;
    assert(0 < ag_size) by (nonlinear_arith)
        requires
            ag_size == opt.blocksize as int * opt.agblocks as int,
            0 < opt.blocksize as int,
            0 < opt.agblocks as int,
    ;
    let x = opt.size + ag_size - 1;
    vstd::arithmetic::div_mod::lemma_fundamental_div_mod(x, ag_size);
    vstd::arithmetic::div_mod::lemma_mod_bound(x, ag_size);
    vstd::arithmetic::div_mod::lemma_div_pos_is_pos(x, ag_size);
    assert((x / ag_size) * ag_size <= x) by (nonlinear_arith)
        requires
            x == ag_size * (x / ag_size) + x % ag_size,
            0 <= x % ag_size,
    ;
}

/// Bounds for one iteration of the group loop: the group's first byte and
/// its superblock stay inside the addressable range.
proof fn lemma_mkfs_loop_bounds(opt: MkfsOption, ag_no: int, ag_count: int)
    requires
        0 < opt.blocksize,
        0 < opt.agblocks,
        opt.blocksize as int * opt.agblocks as int <= u32::MAX,
        opt.size + opt.blocksize as int * opt.agblocks as int <= usize::MAX,
        opt.size + SUPER_BLOCK_SIZE <= usize::MAX,
        0 <= ag_no < ag_count,
        ag_count * (opt.blocksize as int * opt.agblocks as int) <= opt.size + (
        opt.blocksize as int * opt.agblocks as int) - 1,
    ensures
        ({
            let ag_size = opt.blocksize as int * opt.agblocks as int;
            &&& 0 <= ag_no * opt.agblocks as int <= usize::MAX
            &&& ag_no * opt.agblocks as int * opt.blocksize as int == ag_no * ag_size
            &&& ag_no * ag_size + SUPER_BLOCK_SIZE <= usize::MAX
        }),
{
    let ag_size = opt.blocksize as int * opt.agblocks as int;
    assert(0 < ag_size) by (nonlinear_arith)
        requires
            ag_size == opt.blocksize as int * opt.agblocks as int,
            0 < opt.blocksize as int,
            0 < opt.agblocks as int,
    ;
    assert((ag_no + 1) * ag_size <= ag_count * ag_size) by (nonlinear_arith)
        requires
            ag_no + 1 <= ag_count,
            0 <= ag_size,
    ;
    assert(ag_no * ag_size + ag_size == (ag_no + 1) * ag_size) by (nonlinear_arith);
    assert(0 <= ag_no * ag_size) by (nonlinear_arith)
        requires
            0 <= ag_no,
            0 <= ag_size,
    ;
    assert(ag_no * opt.agblocks as int * opt.blocksize as int == ag_no * ag_size)
        by (nonlinear_arith)
        requires
            ag_size == opt.blocksize as int * opt.agblocks as int,
    ;
    assert(ag_no * opt.agblocks as int <= ag_no * ag_size) by (nonlinear_arith)
        requires
            ag_size == opt.blocksize as int * opt.agblocks as int,
            0 <= ag_no,
            1 <= opt.blocksize as int,
            0 <= opt.agblocks as int,
    ;
    assert(0 <= ag_no * opt.agblocks as int) by (nonlinear_arith)
        requires
            0 <= ag_no,
            0 <= opt.agblocks as int,
    ;
}

} // verus!
