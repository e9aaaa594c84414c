use aspects::block::{Block, BLOCK_DATA_SIZE, BLOCK_SIZE, NO_NEXT_BLOCK};
use aspects::crc::crc64;
use aspects::keyword::Key;

fn test_key(fill: u8) -> Key {
    let mut key = [0u8; 32];
    for (i, b) in key.iter_mut().enumerate() {
        *b = fill.wrapping_add(i as u8);
    }
    key
}

/// A deterministic pseudo-random payload.
fn scrambled_payload(seed: u32) -> [u8; BLOCK_DATA_SIZE] {
    let mut payload = [0u8; BLOCK_DATA_SIZE];
    let mut x = seed;
    for b in payload.iter_mut() {
        x = x.wrapping_mul(1664525).wrapping_add(1013904223);
        *b = (x >> 24) as u8;
    }
    payload
}

#[test]
fn block_size() {
    assert_eq!(BLOCK_SIZE, std::mem::size_of::<Block>())
}

#[test]
fn crc_sanity() {
    assert_eq!(crc64(&[0x00, 0x01, 0x02, 0x04]), 8513814196102790297);
}

#[test]
fn fresh_block_is_valid() {
    let b = Block::new();
    assert_eq!(b.header.next_sector_id, NO_NEXT_BLOCK);
    assert!(b.validate_checksum());
}

#[test]
fn validate_is_pure() {
    let b = Block::new();
    let first = b.validate_checksum();
    let second = b.validate_checksum();
    let third = b.validate_checksum();
    assert_eq!(first, second);
    assert_eq!(second, third);
    assert!(first);
}

#[test]
fn encrypt_decrypt_round_trip() {
    let key = test_key(0x41);
    let mut b = Block::new();
    b.set_data(b"payload under test");
    b.set_next(7);
    let d = b.encrypt(key).decrypt(key);
    assert_eq!(d, b);
}

#[test]
fn round_trip_random_payloads() {
    for seed in [1u32, 2, 0xdead, 0xffff_fffe] {
        let key = test_key(seed as u8);
        let mut b = Block::new();
        let payload = scrambled_payload(seed);
        b.set_data(&payload);
        let d = b.encrypt(key).decrypt(key);
        assert_eq!(d, b);
    }
}

#[test]
fn wrong_key_does_not_validate() {
    let mut b = Block::new();
    b.set_data(b"some genuine content");
    let d = b.encrypt(test_key(1)).decrypt(test_key(2));
    assert!(!d.validate_checksum());
}

#[test]
fn ciphertext_depends_on_key() {
    let b = Block::new();
    let img1 = b.encrypt(test_key(1)).into_bytes();
    let img2 = b.encrypt(test_key(2)).into_bytes();
    assert_ne!(img1, img2);
}

#[test]
fn checksum_bit_sensitivity() {
    let mut b = Block::new();
    b.set_data(&scrambled_payload(0x1234_5678));
    let stored = b.header.checksum;
    assert_eq!(stored, crc64(&b.data));
    for byte in 0..BLOCK_DATA_SIZE {
        for bit in 0..8 {
            let mut mutated = b.data;
            mutated[byte] ^= 1u8 << bit;
            assert_ne!(crc64(&mutated), stored, "flip at byte {byte} bit {bit}");
        }
    }
}

#[test]
fn set_data_pads_with_zeros() {
    let mut b = Block::new();
    b.set_data(&[9, 8, 7]);
    assert_eq!(&b.data[..3], &[9, 8, 7]);
    assert_eq!(b.data[3], 0);
    assert!(b.validate_checksum());
}
