//! On-disk data-layout declarations: the superblock, the allocation-group
//! headers, and the inode and directory structures.  Apart from the
//! superblock, which mkfs encodes and writes, these are passive shapes with
//! no algorithmic behaviour yet.

use crate::codec::{push_u16_le, push_u32_le, push_u64_le, push_u8s, u16_le, u32_le, u64_le, u8_seq};
use crate::util::uuid;
use vstd::prelude::*;

verus! {

/// An absolute inode number.
pub type AbsInoNo = u64;

/// A 16-byte unique identifier.
pub type UUID = [u8; 16];

pub const SUPER_BLOCK_MAGIC: u32 = 0x73666470;

/// Encoded size in bytes of a [`SuperBlock`].
pub const SUPER_BLOCK_SIZE: usize = 156;

/// The filesystem superblock, written at the start of every allocation
/// group.
pub struct SuperBlock {
    pub magicnum: u32,
    /// Logical block size in bytes.
    pub blocksize: u32,
    /// Number of data blocks.
    pub dblocks: u32,
    /// Number of realtime blocks.
    pub rblocks: u32,
    /// Number of realtime extents.
    pub rextents: u32,
    pub uuid: UUID,
    /// Root directory inode number.
    pub rootino: u32,
    /// Realtime bitmap inode number.
    pub rbmino: u32,
    /// Realtime extent size in blocks.
    pub rextsize: u32,
    /// Blocks per allocation group (the last group may be smaller).
    pub agblocks: u32,
    /// Number of allocation groups.
    pub agcount: u32,
    /// Number of realtime bitmap blocks.
    pub rbmblocks: u32,
    /// Number of log blocks.
    pub logblocks: u32,
    /// Format version.
    pub version: u16,
    /// Sector size in bytes.
    pub sectsize: u16,
    /// Inode size in bytes.
    pub inodesize: u16,
    /// Inodes per block.
    pub inopblock: u16,
    /// Filesystem name.
    pub fsname: [u8; 16],
    /// log2 of the block size.
    pub blocksize_bits: u8,
    /// log2 of the sector size.
    pub sectsize_bits: u8,
    /// log2 of the inode size.
    pub inodesize_bits: u8,
    /// log2 of inodes per block.
    pub inpblock_bits: u8,
    /// log2 of blocks per allocation group.
    pub agblocks_bits: u8,
    /// log2 of the realtime extent size.
    pub rextents_bits: u8,
    /// Whether formatting is in progress.
    pub inprogress: u8,
    /// Maximum inode percentage.
    pub imax_pct: u8,
    /// Total inode count.
    pub icount: u64,
    /// Free inode count.
    pub ifree: u64,
    /// Free data block count.
    pub fdblocks: u64,
    /// Free realtime extent count.
    pub frextents: u64,
    /// User quota inode number.
    pub uquotino: AbsInoNo,
    /// Group quota inode number.
    pub gquotino: AbsInoNo,
    /// Quota flags.
    pub qflags: u32,
    /// Miscellaneous flags.
    pub flags: u32,
    /// Inode chunk alignment in filesystem blocks.
    pub sb_inoalignmt: u32,
}

/// The on-disk bytes of a superblock: its fields in declaration order, each
/// integer little-endian.
#[verifier::opaque]
pub open spec fn spec_superblock_bytes(sb: SuperBlock) -> Seq<u8> {
    u32_le(sb.magicnum) + u32_le(sb.blocksize) + u32_le(sb.dblocks) + u32_le(sb.rblocks) + u32_le(
        sb.rextents,
    ) + sb.uuid@ + u32_le(sb.rootino) + u32_le(sb.rbmino) + u32_le(sb.rextsize) + u32_le(
        sb.agblocks,
    ) + u32_le(sb.agcount) + u32_le(sb.rbmblocks) + u32_le(sb.logblocks) + u16_le(sb.version)
        + u16_le(sb.sectsize) + u16_le(sb.inodesize) + u16_le(sb.inopblock) + sb.fsname@ + u8_seq(
        sb.blocksize_bits,
    ) + u8_seq(sb.sectsize_bits) + u8_seq(sb.inodesize_bits) + u8_seq(sb.inpblock_bits) + u8_seq(
        sb.agblocks_bits,
    ) + u8_seq(sb.rextents_bits) + u8_seq(sb.inprogress) + u8_seq(sb.imax_pct) + u64_le(sb.icount)
        + u64_le(sb.ifree) + u64_le(sb.fdblocks) + u64_le(sb.frextents) + u64_le(sb.uquotino)
        + u64_le(sb.gquotino) + u32_le(sb.qflags) + u32_le(sb.flags) + u32_le(sb.sb_inoalignmt)
}

impl SuperBlock {
    /// A superblock with the format magic and every other field zero.
    pub fn new() -> (sb: SuperBlock)
        ensures
            sb.magicnum == SUPER_BLOCK_MAGIC,
            sb.blocksize == 0,
            sb.dblocks == 0,
            sb.rblocks == 0,
            sb.rextents == 0,
            sb.uuid@ == Seq::new(16, |i: int| 0u8),
            sb.rootino == 0,
            sb.rbmino == 0,
            sb.rextsize == 0,
            sb.agblocks == 0,
            sb.agcount == 0,
            sb.rbmblocks == 0,
            sb.logblocks == 0,
            sb.version == 0,
            sb.sectsize == 0,
            sb.inodesize == 0,
            sb.inopblock == 0,
            sb.fsname@ == Seq::new(16, |i: int| 0u8),
            sb.blocksize_bits == 0,
            sb.sectsize_bits == 0,
            sb.inodesize_bits == 0,
            sb.inpblock_bits == 0,
            sb.agblocks_bits == 0,
            sb.rextents_bits == 0,
            sb.inprogress == 0,
            sb.imax_pct == 0,
            sb.icount == 0,
            sb.ifree == 0,
            sb.fdblocks == 0,
            sb.frextents == 0,
            sb.uquotino == 0,
            sb.gquotino == 0,
            sb.qflags == 0,
            sb.flags == 0,
            sb.sb_inoalignmt == 0,
    {
        let sb = SuperBlock {
            magicnum: SUPER_BLOCK_MAGIC,
            blocksize: 0,
            dblocks: 0,
            rblocks: 0,
            rextents: 0,
            uuid: [0; 16],
            rootino: 0,
            rbmino: 0,
            rextsize: 0,
            agblocks: 0,
            agcount: 0,
            rbmblocks: 0,
            logblocks: 0,
            version: 0,
            sectsize: 0,
            inodesize: 0,
            inopblock: 0,
            fsname: [0; 16],
            blocksize_bits: 0,
            sectsize_bits: 0,
            inodesize_bits: 0,
            inpblock_bits: 0,
            agblocks_bits: 0,
            rextents_bits: 0,
            inprogress: 0,
            imax_pct: 0,
            icount: 0,
            ifree: 0,
            fdblocks: 0,
            frextents: 0,
            uquotino: 0,
            gquotino: 0,
            qflags: 0,
            flags: 0,
            sb_inoalignmt: 0,
        };
        proof {
            assert(sb.uuid@ =~= Seq::new(16, |i: int| 0u8));
            assert(sb.fsname@ =~= Seq::new(16, |i: int| 0u8));
        }
        sb
    }

    /// The on-disk encoding of this superblock.
    #[verifier::rlimit(100)]
    #[verifier::spinoff_prover]
    pub fn encode(&self) -> (b: Vec<u8>)
        ensures
            b@ == spec_superblock_bytes(*self),
            b@.len() == SUPER_BLOCK_SIZE,
    {
        let mut b: Vec<u8> = Vec::new();
        push_u32_le(&mut b, self.magicnum);
        push_u32_le(&mut b, self.blocksize);
        push_u32_le(&mut b, self.dblocks);
        push_u32_le(&mut b, self.rblocks);
        push_u32_le(&mut b, self.rextents);
        push_u8s(&mut b, &self.uuid);
        push_u32_le(&mut b, self.rootino);
        push_u32_le(&mut b, self.rbmino);
        push_u32_le(&mut b, self.rextsize);
        push_u32_le(&mut b, self.agblocks);
        push_u32_le(&mut b, self.agcount);
        push_u32_le(&mut b, self.rbmblocks);
        push_u32_le(&mut b, self.logblocks);
        push_u16_le(&mut b, self.version);
        push_u16_le(&mut b, self.sectsize);
        push_u16_le(&mut b, self.inodesize);
        push_u16_le(&mut b, self.inopblock);
        push_u8s(&mut b, &self.fsname);
        b.push(self.blocksize_bits);
        b.push(self.sectsize_bits);
        b.push(self.inodesize_bits);
        b.push(self.inpblock_bits);
        b.push(self.agblocks_bits);
        b.push(self.rextents_bits);
        b.push(self.inprogress);
        b.push(self.imax_pct);
        push_u64_le(&mut b, self.icount);
        push_u64_le(&mut b, self.ifree);
        push_u64_le(&mut b, self.fdblocks);
        push_u64_le(&mut b, self.frextents);
        push_u64_le(&mut b, self.uquotino);
        push_u64_le(&mut b, self.gquotino);
        push_u32_le(&mut b, self.qflags);
        push_u32_le(&mut b, self.flags);
        push_u32_le(&mut b, self.sb_inoalignmt);
        proof {
            reveal(spec_superblock_bytes);
            assert(Seq::<u8>::empty() + u32_le(self.magicnum) =~= u32_le(self.magicnum));
        }
        b
    }
}

/// How many B+tree roots an allocation group's free-space header tracks.
pub const AGF_BT_NUM: usize = 3;

pub const AGF_MAGIC: u32 = 0x01231023;

/// The allocation-group free-space header (second sector of each group).
pub struct Agf {
    pub magicnum: u32,
    pub versionnum: u32,
    /// The group number this header belongs to.
    pub seqno: u32,
    /// The size of the group in blocks.
    pub length: u32,
    /// Root block numbers of the free-space B+trees: by block number, by
    /// block count, and the reverse map.
    pub roots: [u32; AGF_BT_NUM],
    pub spare0: u32,
    /// Depth of each free-space B+tree, matching `roots`.
    pub levels: [u32; AGF_BT_NUM],
    pub spare1: u32,
    /// First block of the free list.
    pub flfirst: u32,
    /// Last block of the free list.
    pub fllast: u32,
    /// Number of blocks in the free list.
    pub flcount: u32,
    /// Number of free blocks in the group.
    pub freeblks: u32,
    /// Longest run of contiguous free blocks.
    pub longest: u32,
    /// Blocks used by the group's own B+trees.
    pub btreeblks: u32,
    pub uuid: UUID,
    pub spare64: [u64; 16],
    /// Log sequence number of the last write.
    pub lsn: u64,
    /// Checksum of this header.
    pub crc: u32,
    pub spare2: u32,
}

impl Agf {
    /// A fresh free-space header for group `agno` of `agblocks` blocks, with
    /// an empty free list and a new identifier.
    pub fn new(agno: u32, agblocks: u32) -> (agf: Agf)
        ensures
            agf.magicnum == AGF_MAGIC,
            agf.versionnum == 0,
            agf.seqno == agno,
            agf.length == agblocks,
            agf.roots@ == Seq::new(3, |i: int| 0u32),
            agf.spare0 == 0,
            agf.levels@ == Seq::new(3, |i: int| 0u32),
            agf.spare1 == 0,
            agf.flfirst == 1,
            agf.fllast == 0,
            agf.flcount == 0,
            agf.freeblks == 0,
            agf.longest == 0,
            agf.btreeblks == 0,
            agf.spare64@ == Seq::new(16, |i: int| 0u64),
            agf.lsn == 0,
            agf.crc == 0,
            agf.spare2 == 0,
    {
        let agf = Agf {
            magicnum: AGF_MAGIC,
            versionnum: 0,
            seqno: agno,
            length: agblocks,
            roots: [0; AGF_BT_NUM],
            spare0: 0,
            levels: [0; AGF_BT_NUM],
            spare1: 0,
            flfirst: 1,
            fllast: 0,
            flcount: 0,
            freeblks: 0,
            longest: 0,
            btreeblks: 0,
            uuid: uuid(),
            spare64: [0; 16],
            lsn: 0,
            crc: 0,
            spare2: 0,
        };
        proof {
            assert(agf.roots@ =~= Seq::new(3, |i: int| 0u32));
            assert(agf.levels@ =~= Seq::new(3, |i: int| 0u32));
            assert(agf.spare64@ =~= Seq::new(16, |i: int| 0u64));
        }
        agf
    }
}

/// The allocation-group free-list header.
#[allow(dead_code)]
pub struct Agfl {
    magicnum: u32,
    seqno: u32,
    uuid: UUID,
    lsn: u64,
    crc: u32,
}

/// The allocation-group inode header.
#[allow(dead_code)]
pub struct Agi {
    magicnum: u32,
    versionnum: u32,
    seqno: u32,
    length: u32,
    count: u32,
    root: u32,
    level: u32,
    freecount: u32,
    newino: u32,
    dirino: u32,
    unlinked: [u32; 64],
    uuid: UUID,
    crc: u32,
    pad32: u32,
    lsn: u64,
    freeRoot: u32,
    freeLevel: u32,
    iblocks: u32,
    fblocks: u32,
}

/// One record of the inode B+tree: an inode chunk and its free map.
#[allow(dead_code)]
pub struct InodeBtreeRecord {
    startino: u32,
    holemask: u16,
    count: u8,
    freecount: u8,
    free: u64,
}

/// A seconds/nanoseconds timestamp.
#[allow(dead_code, non_camel_case_types)]
pub struct timestamp {
    sec: u32,
    nsec: u32,
}

#[allow(dead_code)]
type InodeFlags = u16;

/// The on-disk inode.
#[allow(dead_code)]
pub struct Dinode {
    magic: u16,
    mode: u16,
    version: u8,
    format: u8,
    onlink: u16,
    uid: u32,
    gid: u32,
    nlink: u32,
    projid_lo: u16,
    projid_hi: u16,
    pad: [u8; 6],
    flushiter: u16,
    atime: timestamp,
    mtime: timestamp,
    ctime: timestamp,
    size: u64,
    nblocks: u64,
    extsize: u32,
    nextents: u32,
    anextents: u16,
    forkoff: u8,
    aformat: i8,
    dmevmask: u32,
    dmstate: u16,
    flags: InodeFlags,
    gen: u32,
    next_unlinked: u32,
    crc: u32,
    changecount: u64,
    lsn: u64,
    flags2: u64,
    cowextsize: u32,
    pad2: [u8; 12],
    crtime: timestamp,
    ino: u64,
    uuid: UUID,
}

/// The allocation state of one extent.
#[allow(dead_code)]
pub enum ExtentState {
    ExtNorm,
    ExtUnwritten,
    ExtDmapiOffline,
    ExtInvalid,
}

/// One extent of a file's block map.
#[allow(dead_code)]
pub struct BmbtRecord {
    startoff: u64,
    startblock: u32,
    blockcount: u64,
    state: ExtentState,
}

/// The root of a block-map B+tree stored inside an inode.
#[allow(dead_code)]
pub struct BmdrBlock {
    level: u8,
    numrecs: u8,
}

/// Header of a short-form directory.
#[allow(dead_code)]
pub struct DirShortFormatHeader {
    count: u16,
    i8count: u8,
    parent: [u8; 8],
}

/// One entry of a short-form directory.
#[allow(dead_code)]
pub struct DirShortFormatEntry {
    namelen: u8,
    offset: [u8; 2],
    name: Vec<u8>,
}

/// Header of a directory data block.
#[allow(dead_code)]
pub struct DirDataHeader {
    hdr: DirBlockHeader,
    best_free: [DirDataFree; 3],
    pad: u32,
}

/// Common header of a directory block.
#[allow(dead_code)]
pub struct DirBlockHeader {
    magic: u32,
    crc: u32,
    blkno: u64,
    lsn: u64,
    uuid: UUID,
    owner: u64,
}

/// One free-space region inside a directory data block.
#[allow(dead_code)]
pub struct DirDataFree {
    offset: u16,
    length: u16,
}

/// One name entry of a directory data block.
#[allow(dead_code)]
pub struct DirDataEntry {
    inumber: u64,
    namelen: u8,
    name: Vec<u8>,
}

/// An unused span inside a directory data block.
#[allow(dead_code)]
pub struct DirDataUnused {
    freetag: u16,
    length: u16,
    tag: u16,
}

/// One hashed leaf entry of a directory.
#[allow(dead_code)]
pub struct DirLeafEntry {
    hashval: u32,
    address: u32,
}

/// Tail of a combined directory data/leaf block.
#[allow(dead_code)]
pub struct BlockTail {
    count: u32,
    stale: u32,
}

/// A directory leaf block.
#[allow(dead_code)]
pub struct DirLeaf {
    hdr: DirLeafHeader,
    ents: Vec<DirLeafEntry>,
}

/// Header of a directory leaf block.
#[allow(dead_code)]
pub struct DirLeafHeader {
    info: DirAttrBlockInfo,
    count: u16,
    stale: u16,
    pad: u32,
}

/// Tail of a directory leaf block.
#[allow(dead_code)]
pub struct DirLeaftTail {
    bestcount: u32,
}

/// Common header of directory and attribute B+tree blocks.
#[allow(dead_code)]
pub struct DirAttrBlockInfo {
    forw: u32,
    back: u32,
    magic: u16,
    pad: u16,
    crc: u32,
    blkno: u64,
    lsn: u64,
    uuid: UUID,
    owner: u64,
}

} // verus!
