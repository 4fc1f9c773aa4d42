//! Tests of the formatting and numeric utilities.

use pound_fs::util::{ffs, hex_str, human_readable_size, pad_zeroes, uuid};

#[test]
fn hex_str_pads_to_eight_digits() {
    assert_eq!(hex_str(0), "00000000H");
    assert_eq!(hex_str(0x100), "00000100H");
    assert_eq!(hex_str(0xdeadbeef), "deadbeefH");
    assert_eq!(hex_str(0x123456789), "123456789H");
}

#[test]
fn human_readable_size_cascades_units() {
    assert_eq!(human_readable_size(0), "0 B");
    assert_eq!(human_readable_size(500), "500 B");
    assert_eq!(human_readable_size(1024), "1024 B");
    assert_eq!(human_readable_size(2048), "2 KB");
    assert_eq!(human_readable_size(1024 * 1024 * 50), "50 MB");
    assert_eq!(human_readable_size(5 * 1024 * 1024 * 1024), "5 GB");
}

#[test]
fn ffs_counts_binary_digits() {
    assert_eq!(ffs(0), 0);
    assert_eq!(ffs(1), 1);
    assert_eq!(ffs(2), 2);
    assert_eq!(ffs(3), 2);
    assert_eq!(ffs(4096), 13);
    assert_eq!(ffs(10240), 14);
    assert_eq!(ffs(u32::MAX), 32);
}

#[test]
fn pad_zeroes_extends_with_zeros() {
    let padded = pad_zeroes(&vec![1, 2, 3], 8);
    assert_eq!(padded, vec![1, 2, 3, 0, 0, 0, 0, 0]);
    let unchanged = pad_zeroes(&vec![9, 9], 2);
    assert_eq!(unchanged, vec![9, 9]);
    let empty = pad_zeroes(&vec![], 4);
    assert_eq!(empty, vec![0, 0, 0, 0]);
}

#[test]
fn uuid_is_sixteen_bytes() {
    let a = uuid();
    let b = uuid();
    assert_eq!(a.len(), 16);
    assert_eq!(b.len(), 16);
}
