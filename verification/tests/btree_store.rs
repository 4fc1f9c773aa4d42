//! Tests of the single-block sorted record store.

use pound_fs::block_dev::BlockDevice;
use pound_fs::btree::BTREE_HEADER_SIZE;
use pound_fs::btree_op::{BtreeOperator, SetStatus, StoreError};
use pound_fs::mem_blk::MemBlockDevice;

fn new_store() -> BtreeOperator<MemBlockDevice> {
    let dev = MemBlockDevice::new(512, 20);
    let mut bto = BtreeOperator::new(dev, 0, 8, 16);
    bto.create_btree().unwrap();
    bto
}

fn record(first: u8) -> Vec<u8> {
    (first..first + 16).collect::<Vec<u8>>()
}

#[test]
fn test_btree() {
    let dev_size = 10 * 1024; // 10KB
    let dev = MemBlockDevice::new(512, dev_size / 512);
    let mut bto: BtreeOperator<MemBlockDevice> = BtreeOperator::new(dev, 0, 8, 16);
    bto.create_btree().unwrap();
    for i in 0..10u8 {
        let v = (i..i + 16).collect::<Vec<_>>();
        bto.set(&v[..8].to_vec(), &v[..16].to_vec()).unwrap();
    }
}

#[test]
fn insert_ascending_and_get() {
    let mut bto = new_store();
    for i in 0..10u8 {
        let v = record(i);
        let st = bto.set(&v[..8].to_vec(), &v.clone()).unwrap();
        assert_eq!(st, SetStatus::Inserted);
    }
    for i in 0..10u8 {
        let v = record(i);
        let got = bto.get(&v[..8].to_vec()).unwrap();
        assert_eq!(got, Some(v));
    }
    // the on-disk record order matches ascending key order
    let mut blk = vec![0u8; 512];
    assert!(bto.dev().read_block(0, &mut blk));
    let numrecs = blk[6] as usize + 256 * blk[7] as usize;
    assert_eq!(numrecs, 10);
    for r in 0..numrecs {
        let off = BTREE_HEADER_SIZE + r * 16;
        assert_eq!(blk[off..off + 16].to_vec(), record(r as u8));
        if r > 0 {
            let prev = BTREE_HEADER_SIZE + (r - 1) * 16;
            assert!(blk[prev..prev + 8] < blk[off..off + 8]);
        }
    }
}

#[test]
fn insert_in_middle_keeps_order() {
    let mut bto = new_store();
    for first in [10u8, 30u8, 20u8] {
        let v = record(first);
        let st = bto.set(&v[..8].to_vec(), &v.clone()).unwrap();
        assert_eq!(st, SetStatus::Inserted);
    }
    for first in [10u8, 20u8, 30u8] {
        let v = record(first);
        assert_eq!(bto.get(&v[..8].to_vec()).unwrap(), Some(v));
    }
    let mut blk = vec![0u8; 512];
    assert!(bto.dev().read_block(0, &mut blk));
    assert_eq!(blk[6] as usize + 256 * blk[7] as usize, 3);
    assert_eq!(blk[64], 10);
    assert_eq!(blk[64 + 16], 20);
    assert_eq!(blk[64 + 32], 30);
}

#[test]
fn never_inserted_key_is_not_found() {
    let mut bto = new_store();
    for i in 0..5u8 {
        let v = record(i);
        bto.set(&v[..8].to_vec(), &v.clone()).unwrap();
    }
    let absent = record(99);
    assert_eq!(bto.get(&absent[..8].to_vec()).unwrap(), None);
    let empty_store = new_store();
    assert_eq!(empty_store.get(&absent[..8].to_vec()).unwrap(), None);
}

#[test]
fn existing_key_reports_found_without_change() {
    let mut bto = new_store();
    let v = record(5);
    assert_eq!(bto.set(&v[..8].to_vec(), &v.clone()).unwrap(), SetStatus::Inserted);
    let mut before = vec![0u8; 512];
    assert!(bto.dev().read_block(0, &mut before));
    assert_eq!(bto.set(&v[..8].to_vec(), &v.clone()).unwrap(), SetStatus::Found);
    let mut after = vec![0u8; 512];
    assert!(bto.dev().read_block(0, &mut after));
    assert_eq!(before, after);
}

#[test]
fn full_block_insert_is_a_no_op() {
    // a 512-byte block holds the 64-byte header plus exactly 28 records of
    // 16 bytes
    let mut bto = new_store();
    for i in 0..28u8 {
        let v: Vec<u8> = vec![i; 16];
        assert_eq!(bto.set(&v[..8].to_vec(), &v.clone()).unwrap(), SetStatus::Inserted);
    }
    let mut before = vec![0u8; 512];
    assert!(bto.dev().read_block(0, &mut before));
    assert_eq!(before[6] as usize + 256 * before[7] as usize, 28);

    let extra: Vec<u8> = vec![200u8; 16];
    assert_eq!(bto.set(&extra[..8].to_vec(), &extra.clone()).unwrap(), SetStatus::BlockFull);

    let mut after = vec![0u8; 512];
    assert!(bto.dev().read_block(0, &mut after));
    assert_eq!(before, after);
    // the stored records are intact and still found
    for i in 0..28u8 {
        let v: Vec<u8> = vec![i; 16];
        assert_eq!(bto.get(&v[..8].to_vec()).unwrap(), Some(v));
    }
    assert_eq!(bto.get(&extra[..8].to_vec()).unwrap(), None);
}

#[test]
fn out_of_range_root_reports_io() {
    let dev = MemBlockDevice::new(512, 4);
    let mut bto = BtreeOperator::new(dev, 10, 8, 16);
    let v = record(1);
    assert_eq!(bto.get(&v[..8].to_vec()), Err(StoreError::Io));
    assert_eq!(bto.set(&v[..8].to_vec(), &v.clone()), Err(StoreError::Io));
}

#[test]
fn bad_magic_reports_corrupt() {
    let mut dev = MemBlockDevice::new(512, 4);
    let garbage = vec![0xABu8; 512];
    assert!(dev.write_block(0, &garbage));
    let mut bto = BtreeOperator::new(dev, 0, 8, 16);
    let v = record(1);
    assert_eq!(bto.get(&v[..8].to_vec()), Err(StoreError::Corrupt));
    assert_eq!(bto.set(&v[..8].to_vec(), &v.clone()), Err(StoreError::Corrupt));
}

#[test]
fn get_rec_off_matches_layout() {
    let bto = new_store();
    assert_eq!(bto.get_rec_off(512, 0), Some(64));
    assert_eq!(bto.get_rec_off(512, 28), Some(64 + 28 * 16));
    assert_eq!(bto.get_rec_off(512, 29), None);
    assert_eq!(bto.get_rec_off(32, 0), None);
}

#[test]
fn smallest_key_appends_after_last_record() {
    // a key below every stored key has no predecessor, so the record is
    // appended after the last slot; the array is then out of order and the
    // early-exit scan no longer finds the new key
    let mut bto = new_store();
    let high = record(20);
    let low = record(10);
    assert_eq!(bto.set(&high[..8].to_vec(), &high.clone()).unwrap(), SetStatus::Inserted);
    assert_eq!(bto.set(&low[..8].to_vec(), &low.clone()).unwrap(), SetStatus::Inserted);

    let mut blk = vec![0u8; 512];
    assert!(bto.dev().read_block(0, &mut blk));
    assert_eq!(blk[6] as usize + 256 * blk[7] as usize, 2);
    assert_eq!(blk[64], 20);
    assert_eq!(blk[64 + 16], 10);
    assert_eq!(bto.get(&high[..8].to_vec()).unwrap(), Some(high));
    assert_eq!(bto.get(&low[..8].to_vec()).unwrap(), None);
}
