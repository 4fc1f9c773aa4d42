//! The B+tree block header and its on-disk codec.
//!
//! A record-store block starts with this fixed 64-byte header; the encoded
//! records follow it immediately.  The header is laid out as its fields in
//! declaration order, integers little-endian, and `decode` validates the
//! format magic, so a corrupted block surfaces as a decode failure instead
//! of nonsense field values.

use crate::codec::{
    push_u16_le, push_u32_le, push_u64_le, push_u8s, read_u16_le, read_u32_le, read_u64_le,
    u16_le, u16_of_le, u32_le, u32_of_le, u64_le, u64_of_le,
};
use crate::dstruct::UUID;
use crate::util::uuid;
use vstd::prelude::*;

verus! {

/// Format magic of a record-store block.
pub const BTREE_BLOCK_MAGIC: u32 = 0xB5B1A1A1;

/// Encoded size in bytes of a [`BtreeBlock`] header.
pub const BTREE_HEADER_SIZE: usize = 64;

/// The header at the start of every record-store block.
#[allow(non_snake_case)]
#[derive(Debug, PartialEq, Eq)]
pub struct BtreeBlock {
    /// Format magic, validated on decode.
    pub magicnum: u32,
    /// Tree depth: `0` means the block holds data records directly.
    pub level: u16,
    /// Number of records currently stored in the block.
    pub numrecs: u16,
    /// Block number of the left sibling, for a multi-block tree.
    pub leftSibling: u64,
    /// Block number of the right sibling, for a multi-block tree.
    pub rightSibling: u64,
    /// This block's own physical block number.
    pub blkno: u64,
    /// Log sequence number of the last write.
    pub lsn: u64,
    /// Identifier assigned when the block was created.
    pub uuid: UUID,
    /// Owning allocation group or structure.
    pub owner: u32,
    /// Checksum of the block.
    pub crc: u32,
}

/// The 64 header bytes of `h`: its fields in declaration order, integers
/// little-endian.
pub open spec fn spec_header_bytes(h: BtreeBlock) -> Seq<u8> {
    u32_le(h.magicnum) + u16_le(h.level) + u16_le(h.numrecs) + u64_le(h.leftSibling) + u64_le(
        h.rightSibling,
    ) + u64_le(h.blkno) + u64_le(h.lsn) + h.uuid@ + u32_le(h.owner) + u32_le(h.crc)
}

/// The magic stored in a block's first four bytes.
pub open spec fn spec_magic_of(b: Seq<u8>) -> int
    recommends
        b.len() >= BTREE_HEADER_SIZE,
{
    u32_of_le(b.subrange(0, 4))
}

/// The record count stored in a block's header.
pub open spec fn spec_numrecs_of(b: Seq<u8>) -> int
    recommends
        b.len() >= BTREE_HEADER_SIZE,
{
    u16_of_le(b.subrange(6, 8))
}


/// The 64 bytes at the start of `b` encode a freshly created header for
/// block `blkno`: the format magic, leaf level, no records, and zero
/// siblings, log sequence number, owner and checksum.  The identifier bytes
/// are not constrained: they are drawn at random when the header is made.
pub open spec fn spec_fresh_header_bytes(b: Seq<u8>, blkno: int) -> bool
    recommends
        b.len() >= BTREE_HEADER_SIZE,
{
    &&& u32_of_le(b.subrange(0, 4)) == BTREE_BLOCK_MAGIC
    &&& u16_of_le(b.subrange(4, 6)) == 0
    &&& u16_of_le(b.subrange(6, 8)) == 0
    &&& u64_of_le(b.subrange(8, 16)) == 0
    &&& u64_of_le(b.subrange(16, 24)) == 0
    &&& u64_of_le(b.subrange(24, 32)) == blkno
    &&& u64_of_le(b.subrange(32, 40)) == 0
    &&& u32_of_le(b.subrange(56, 60)) == 0
    &&& u32_of_le(b.subrange(60, 64)) == 0
}

/// Whether `h` holds exactly the fields stored in the header bytes `b`.
pub open spec fn spec_header_matches(h: BtreeBlock, b: Seq<u8>) -> bool
    recommends
        b.len() >= BTREE_HEADER_SIZE,
{
    &&& h.magicnum == u32_of_le(b.subrange(0, 4))
    &&& h.level == u16_of_le(b.subrange(4, 6))
    &&& h.numrecs == u16_of_le(b.subrange(6, 8))
    &&& h.leftSibling == u64_of_le(b.subrange(8, 16))
    &&& h.rightSibling == u64_of_le(b.subrange(16, 24))
    &&& h.blkno == u64_of_le(b.subrange(24, 32))
    &&& h.lsn == u64_of_le(b.subrange(32, 40))
    &&& h.uuid@ == b.subrange(40, 56)
    &&& h.owner == u32_of_le(b.subrange(56, 60))
    &&& h.crc == u32_of_le(b.subrange(60, 64))
}

impl BtreeBlock {
    /// A fresh header for block `blkno`: no records, leaf level, a new
    /// identifier.
    pub fn new(blkno: u64) -> (h: BtreeBlock)
        ensures
            h.magicnum == BTREE_BLOCK_MAGIC,
            h.level == 0,
            h.numrecs == 0,
            h.leftSibling == 0,
            h.rightSibling == 0,
            h.blkno == blkno,
            h.lsn == 0,
            h.owner == 0,
            h.crc == 0,
    {
        BtreeBlock {
            magicnum: BTREE_BLOCK_MAGIC,
            level: 0,
            numrecs: 0,
            leftSibling: 0,
            rightSibling: 0,
            blkno,
            lsn: 0,
            uuid: uuid(),
            owner: 0,
            crc: 0,
        }
    }

    /// The 64-byte on-disk encoding of this header.
    pub fn encode(&self) -> (b: Vec<u8>)
        ensures
            b@ == spec_header_bytes(*self),
            b@.len() == BTREE_HEADER_SIZE,
    {
        let mut b: Vec<u8> = Vec::new();
        push_u32_le(&mut b, self.magicnum);
        push_u16_le(&mut b, self.level);
        push_u16_le(&mut b, self.numrecs);
        push_u64_le(&mut b, self.leftSibling);
        push_u64_le(&mut b, self.rightSibling);
        push_u64_le(&mut b, self.blkno);
        push_u64_le(&mut b, self.lsn);
        push_u8s(&mut b, &self.uuid);
        push_u32_le(&mut b, self.owner);
        push_u32_le(&mut b, self.crc);
        b
    }

    /// Decodes the header stored at the start of `buf`.  Fails exactly when
    /// the buffer is shorter than a header or the magic does not match.
    pub fn decode(buf: &Vec<u8>) -> (r: Option<BtreeBlock>)
        ensures
            match r {
                Some(h) => buf@.len() >= BTREE_HEADER_SIZE && spec_magic_of(buf@)
                    == BTREE_BLOCK_MAGIC && spec_header_matches(h, buf@),
                None => buf@.len() < BTREE_HEADER_SIZE || spec_magic_of(buf@)
                    != BTREE_BLOCK_MAGIC,
            },
    {
        if buf.len() < BTREE_HEADER_SIZE {
            return None;
        }
        let magicnum = read_u32_le(buf, 0);
        if magicnum != BTREE_BLOCK_MAGIC {
            return None;
        }
        let level = read_u16_le(buf, 4);
        let numrecs = read_u16_le(buf, 6);
        let left_sibling = read_u64_le(buf, 8);
        let right_sibling = read_u64_le(buf, 16);
        let blkno = read_u64_le(buf, 24);
        let lsn = read_u64_le(buf, 32);
        let uuid_arr: UUID = [
            buf[40],
            buf[41],
            buf[42],
            buf[43],
            buf[44],
            buf[45],
            buf[46],
            buf[47],
            buf[48],
            buf[49],
            buf[50],
            buf[51],
            buf[52],
            buf[53],
            buf[54],
            buf[55],
        ];
        let owner = read_u32_le(buf, 56);
        let crc = read_u32_le(buf, 60);
        let h = BtreeBlock {
            magicnum,
            level,
            numrecs,
            leftSibling: left_sibling,
            rightSibling: right_sibling,
            blkno,
            lsn,
            uuid: uuid_arr,
            owner,
            crc,
        };
        proof {
            assert(h.uuid@ =~= buf@.subrange(40, 56));
        }
        Some(h)
    }
}

/// Encoding a header and decoding the bytes reproduces every field: the
/// stored fields of `spec_header_bytes(h)` are exactly the fields of `h`.
#[verifier::rlimit(100)]
#[verifier::spinoff_prover]
pub proof fn lemma_header_round_trip(h: BtreeBlock)
    ensures
        spec_header_matches(h, spec_header_bytes(h)),
        spec_magic_of(spec_header_bytes(h)) == h.magicnum,
        spec_numrecs_of(spec_header_bytes(h)) == h.numrecs,
        spec_header_bytes(h).len() == BTREE_HEADER_SIZE,
{
    let b = spec_header_bytes(h);
    crate::codec::lemma_u32_le_round_trip(h.magicnum);
    crate::codec::lemma_u16_le_round_trip(h.level);
    crate::codec::lemma_u16_le_round_trip(h.numrecs);
    crate::codec::lemma_u64_le_round_trip(h.leftSibling);
    crate::codec::lemma_u64_le_round_trip(h.rightSibling);
    crate::codec::lemma_u64_le_round_trip(h.blkno);
    crate::codec::lemma_u64_le_round_trip(h.lsn);
    crate::codec::lemma_u32_le_round_trip(h.owner);
    crate::codec::lemma_u32_le_round_trip(h.crc);
    let p1 = u32_le(h.magicnum);
    let p2 = u16_le(h.level);
    let p3 = u16_le(h.numrecs);
    let p4 = u64_le(h.leftSibling);
    let p5 = u64_le(h.rightSibling);
    let p6 = u64_le(h.blkno);
    let p7 = u64_le(h.lsn);
    let p8 = h.uuid@;
    let p9 = u32_le(h.owner);
    let t2 = p1 + p2;
    let t3 = t2 + p3;
    let t4 = t3 + p4;
    let t5 = t4 + p5;
    let t6 = t5 + p6;
    let t7 = t6 + p7;
    let t8 = t7 + p8;
    let t9 = t8 + p9;
    crate::codec::lemma_take_skip(t9, u32_le(h.crc), b);
    crate::codec::lemma_take_skip(t8, p9, t9);
    crate::codec::lemma_subrange_of_prefix(b, 60, 56, 60);
    crate::codec::lemma_take_skip(t7, p8, t8);
    crate::codec::lemma_subrange_of_prefix(b, 60, 0, 56);
    crate::codec::lemma_subrange_of_prefix(b, 56, 40, 56);
    crate::codec::lemma_take_skip(t6, p7, t7);
    crate::codec::lemma_subrange_of_prefix(b, 56, 0, 40);
    crate::codec::lemma_subrange_of_prefix(b, 40, 32, 40);
    crate::codec::lemma_take_skip(t5, p6, t6);
    crate::codec::lemma_subrange_of_prefix(b, 40, 0, 32);
    crate::codec::lemma_subrange_of_prefix(b, 32, 24, 32);
    crate::codec::lemma_take_skip(t4, p5, t5);
    crate::codec::lemma_subrange_of_prefix(b, 32, 0, 24);
    crate::codec::lemma_subrange_of_prefix(b, 24, 16, 24);
    crate::codec::lemma_take_skip(t3, p4, t4);
    crate::codec::lemma_subrange_of_prefix(b, 24, 0, 16);
    crate::codec::lemma_subrange_of_prefix(b, 16, 8, 16);
    crate::codec::lemma_take_skip(t2, p3, t3);
    crate::codec::lemma_subrange_of_prefix(b, 16, 0, 8);
    crate::codec::lemma_subrange_of_prefix(b, 8, 6, 8);
    crate::codec::lemma_take_skip(p1, p2, t2);
    crate::codec::lemma_subrange_of_prefix(b, 8, 0, 6);
    crate::codec::lemma_subrange_of_prefix(b, 6, 4, 6);
    crate::codec::lemma_subrange_of_prefix(b, 6, 0, 4);
}

/// One free-space extent: a starting block and a length in blocks.
#[derive(Debug, PartialEq, Eq, Structural)]
pub struct AllocRec {
    /// First block of the extent.
    pub startblock: u32,
    /// Number of blocks in the extent.
    pub blockcount: u32,
}

} // verus!
