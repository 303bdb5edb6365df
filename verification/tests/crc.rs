//! Checksums.

use fio_xfs::crc::{crc32c, verify};

#[test]
fn check_value() {
    // The standard CRC-32C check value.
    assert_eq!(crc32c(b"123456789"), 0xe306_9283);
}

#[test]
fn verify_zeroes_its_own_field() {
    let mut buf = vec![7u8; 64];
    buf[8..12].fill(0);
    let c = crc32c(&buf);
    buf[8..12].copy_from_slice(&c.to_le_bytes());
    assert!(verify(&buf, 8));
    buf[20] ^= 1;
    assert!(!verify(&buf, 8));
}

#[test]
fn nothing_and_zeros_have_their_own_checksums() {
    assert_eq!(crc32c(b""), 0);
    assert_eq!(crc32c(&[0; 32]), 0x8a91_36aa);
    assert_eq!(crc32c(&[0xff; 32]), 0x62a8_ab43);
}

#[test]
fn any_single_damaged_byte_is_noticed() {
    let mut buf: Vec<u8> = (0..100).collect();
    buf[8..12].fill(0);
    let c = crc32c(&buf);
    buf[8..12].copy_from_slice(&c.to_le_bytes());
    assert!(verify(&buf, 8));
    for k in 0..buf.len() {
        for bit in 0..8 {
            buf[k] ^= 1 << bit;
            assert!(!verify(&buf, 8), "byte {k}, bit {bit}");
            buf[k] ^= 1 << bit;
        }
    }
    assert!(!verify(&buf, 97), "a field past the end");
}
