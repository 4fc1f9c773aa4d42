//! Tests of the byte-addressable block I/O layer over the in-memory device.

use pound_fs::block_dev::BlockDevice;
use pound_fs::mem_blk::MemBlockDevice;
use pound_fs::util::pad_zeroes;

#[test]
fn test_file_blk() {
    let size = 1024 * 1024 * 50; // 50MB
    let mut file_blk = MemBlockDevice::new(512, size / 512);
    let mut buf = vec![0u8; 512];
    let buf_to_write: Vec<u8> = pad_zeroes(&vec![1, 2, 3, 4, 5, 6, 7, 8, 9, 10], 512);
    assert!(file_blk.write_block(0, &buf_to_write));
    assert!(file_blk.read_block(0, &mut buf));
    let mut long_buf_to_write: Vec<u8> = pad_zeroes(&vec![], 5120);
    for i in 0..512 {
        long_buf_to_write[i * 8] = 'A' as u8 + i as u8 % 26;
    }
    for i in 8 * 512..5120 {
        long_buf_to_write[i] = '@' as u8;
    }
    long_buf_to_write[5120 - 1] = '#' as u8;
    assert!(file_blk.write_all_at(0x00000100, &long_buf_to_write));
    assert_eq!(buf, buf_to_write);
}

#[test]
fn single_block_read_write_at() {
    let mut dev = MemBlockDevice::new(512, 8);
    let pattern: Vec<u8> = (0..512).map(|i| (i % 251) as u8).collect();
    assert!(dev.write_block(3, &pattern));

    let mut got = vec![0u8; 100];
    assert!(dev.read_at(3 * 512 + 50, &mut got));
    assert_eq!(got, pattern[50..150].to_vec());

    let patch: Vec<u8> = vec![0xEE; 20];
    assert!(dev.write_at(3 * 512 + 100, &patch));
    let mut blk = vec![0u8; 512];
    assert!(dev.read_block(3, &mut blk));
    assert_eq!(blk[..100].to_vec(), pattern[..100].to_vec());
    assert_eq!(blk[100..120].to_vec(), patch);
    assert_eq!(blk[120..].to_vec(), pattern[120..].to_vec());
}

#[test]
fn unaligned_span_round_trip() {
    // a write at an unaligned offset spanning 3 physical blocks reads back
    // exactly, and the bytes around it in the first and last blocks keep
    // their earlier values
    let mut dev = MemBlockDevice::new(512, 4);
    for b in 0..4 {
        let fill: Vec<u8> = vec![b as u8 + 1; 512];
        assert!(dev.write_block(b, &fill));
    }
    let data: Vec<u8> = (0..1000).map(|i| (i % 241) as u8).collect();
    assert!(dev.write_all_at(300, &data));

    let mut back = vec![0u8; 1000];
    assert!(dev.read_all_at(300, &mut back));
    assert_eq!(back, data);

    let mut first = vec![0u8; 512];
    assert!(dev.read_block(0, &mut first));
    assert_eq!(first[..300].to_vec(), vec![1u8; 300]);
    let mut last = vec![0u8; 512];
    assert!(dev.read_block(2, &mut last));
    // the span ends at byte 1300, which is offset 276 of block 2
    assert_eq!(last[276..].to_vec(), vec![3u8; 512 - 276]);
    let mut untouched = vec![0u8; 512];
    assert!(dev.read_block(3, &mut untouched));
    assert_eq!(untouched, vec![4u8; 512]);
}

#[test]
fn unaligned_write_block_count() {
    // 5120 bytes starting at byte 0x100 of a 512-byte-block device cover a
    // partial first block, nine full blocks, and a partial last block: 11
    // physical block writes in all
    let size = 1024 * 1024 * 50; // 50MB
    let mut dev = MemBlockDevice::new(512, size / 512);
    let data: Vec<u8> = (0..5120).map(|i| (i % 199) as u8).collect();
    let before = dev.write_count();
    assert!(dev.write_all_at(0x100, &data));
    assert_eq!(dev.write_count() - before, 11);

    let mut back = vec![0u8; 5120];
    assert!(dev.read_all_at(0x100, &mut back));
    assert_eq!(back, data);
}

#[test]
fn out_of_range_block_fails() {
    let mut dev = MemBlockDevice::new(512, 2);
    let mut buf = vec![0u8; 512];
    assert!(!dev.read_block(2, &mut buf));
    assert!(!dev.write_block(5, &buf));
    let mut big = vec![0u8; 600];
    assert!(!dev.read_all_at(512, &mut big));
}
