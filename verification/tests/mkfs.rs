//! Tests of formatting and of the on-disk header codecs.

use pound_fs::block_dev::BlockDevice;
use pound_fs::btree::{BtreeBlock, BTREE_BLOCK_MAGIC};
use pound_fs::dstruct::{Agf, SuperBlock, SUPER_BLOCK_SIZE};
use pound_fs::mem_blk::MemBlockDevice;
use pound_fs::pound_fs::{make_fs, MkfsOption};

#[test]
fn test_make_fs() {
    let fsize = 1024 * 1024 * 50; // 50MB
    let dev = MemBlockDevice::new(512, fsize / 512);
    let mkfs_ptions = MkfsOption { size: fsize, agblocks: 10240, blocksize: 4096 };
    make_fs(dev, mkfs_ptions).unwrap();
}

#[test]
fn make_fs_writes_superblocks() {
    let fsize = 1024 * 1024 * 50; // 50MB: two allocation groups of 40MB
    let dev = MemBlockDevice::new(512, fsize / 512);
    let opt = MkfsOption { size: fsize, agblocks: 10240, blocksize: 4096 };
    let dev = make_fs(dev, opt).unwrap();

    let ag_size = 4096 * 10240;
    for ag in 0..2usize {
        let mut sb = vec![0u8; SUPER_BLOCK_SIZE];
        assert!(dev.read_all_at(ag * ag_size, &mut sb));
        // magic "pdfs" little-endian
        assert_eq!(sb[..4].to_vec(), vec![0x70, 0x64, 0x66, 0x73]);
        // blocksize 4096
        assert_eq!(sb[4..8].to_vec(), vec![0x00, 0x10, 0x00, 0x00]);
        // dblocks = 50MB / 4096 = 12800
        assert_eq!(sb[8..12].to_vec(), vec![0x00, 0x32, 0x00, 0x00]);
        // agblocks 10240
        assert_eq!(sb[48..52].to_vec(), vec![0x00, 0x28, 0x00, 0x00]);
        // agcount 2
        assert_eq!(sb[52..56].to_vec(), vec![0x02, 0x00, 0x00, 0x00]);
        // blocksize_bits = 12 and agblocks_bits = 13
        assert_eq!(sb[88], 12);
        assert_eq!(sb[92], 13);
    }
}

#[test]
fn header_round_trip() {
    let h = BtreeBlock::new(7);
    assert_eq!(h.magicnum, BTREE_BLOCK_MAGIC);
    let enc = h.encode();
    assert_eq!(enc.len(), 64);
    let d = BtreeBlock::decode(&enc).unwrap();
    assert_eq!(d.magicnum, h.magicnum);
    assert_eq!(d.level, h.level);
    assert_eq!(d.numrecs, h.numrecs);
    assert_eq!(d.leftSibling, h.leftSibling);
    assert_eq!(d.rightSibling, h.rightSibling);
    assert_eq!(d.blkno, h.blkno);
    assert_eq!(d.lsn, h.lsn);
    assert_eq!(d.uuid, h.uuid);
    assert_eq!(d.owner, h.owner);
    assert_eq!(d.crc, h.crc);
    assert_eq!(d, h);
}

#[test]
fn header_round_trip_nonzero_fields() {
    let mut h = BtreeBlock::new(0x1122334455667788);
    h.level = 3;
    h.numrecs = 513;
    h.leftSibling = 0x0102030405060708;
    h.rightSibling = u64::MAX;
    h.lsn = 42;
    h.owner = 0xCAFE;
    h.crc = 0xDEADBEEF;
    let enc = h.encode();
    let d = BtreeBlock::decode(&enc).unwrap();
    assert_eq!(d, h);
    // numrecs is stored little-endian at bytes 6..8
    assert_eq!(enc[6], 0x01);
    assert_eq!(enc[7], 0x02);
}

#[test]
fn header_decode_rejects_bad_input() {
    let short = vec![0u8; 63];
    assert!(BtreeBlock::decode(&short).is_none());
    let mut enc = BtreeBlock::new(0).encode();
    enc[0] ^= 0xFF;
    assert!(BtreeBlock::decode(&enc).is_none());
}

#[test]
fn superblock_encodes_to_fixed_size() {
    let sb = SuperBlock::new();
    let enc = sb.encode();
    assert_eq!(enc.len(), SUPER_BLOCK_SIZE);
    assert_eq!(enc[..4].to_vec(), vec![0x70, 0x64, 0x66, 0x73]);
    // every geometry field of a fresh superblock is zero
    assert_eq!(enc[4..SUPER_BLOCK_SIZE].to_vec(), vec![0u8; SUPER_BLOCK_SIZE - 4]);
}

#[test]
fn agf_new_sets_free_list() {
    let agf = Agf::new(3, 10240);
    assert_eq!(agf.seqno, 3);
    assert_eq!(agf.length, 10240);
    assert_eq!(agf.flfirst, 1);
    assert_eq!(agf.fllast, 0);
    assert_eq!(agf.flcount, 0);
    assert_eq!(agf.roots, [0u32; 3]);
}
