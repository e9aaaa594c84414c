use aspects::keyword::Keyword;

fn disp_hash(text: String) {
    let k = Keyword::new(text);
    println!("{} -> {:?}", k.text(), k.hash());
}

/// Returns a keyword with a specific pattern in the fingerprint, useful
/// for testing slicing
fn fingerprint_hash() -> Keyword {
    Keyword::from_hash(
        "a".to_string(),
        [
            0x00, 0x01, 0x02, 0x03, 0x04, 0x05, 0x06, 0x07,
            0x08, 0x09, 0x0a, 0x0b, 0x0c, 0x0d, 0x0e, 0x0f,
            0x10, 0x11, 0x12, 0x13, 0x14, 0x15, 0x16, 0x17,
            0x18, 0x19, 0x1a, 0x1b, 0x1c, 0x1d, 0x1e, 0x1f,
        ],
    )
}

#[test]
fn hash_simple() {
    disp_hash("test".to_string());
    disp_hash("test1".to_string());
}

#[test]
fn sha_test() {
    let k = Keyword::new("test".to_string());
    let expected = [
        0x9f, 0x86, 0xd0, 0x81, 0x88, 0x4c, 0x7d, 0x65,
        0x9a, 0x2f, 0xea, 0xa0, 0xc5, 0x5a, 0xd0, 0x15,
        0xa3, 0xbf, 0x4f, 0x1b, 0x2b, 0x0b, 0x82, 0x2c,
        0xd1, 0x5d, 0x6c, 0x15, 0xb0, 0xf0, 0x0a, 0x08,
    ];
    assert_eq!(*k.hash(), expected);
}

#[test]
fn slice_u8() {
    let k = fingerprint_hash();
    for i in 0..32 {
        assert_eq!(i as u8, k.hash()[i]);
    }
}

#[test]
fn slice_u16() {
    let k = fingerprint_hash();
    assert_eq!(0x0001, k.slice_int::<u16>(0x00).unwrap());
    assert_eq!(0x0102, k.slice_int::<u16>(0x01).unwrap());
    assert_eq!(0x0203, k.slice_int::<u16>(0x02).unwrap());
    assert_eq!(0x0304, k.slice_int::<u16>(0x03).unwrap());
    assert_eq!(0x0405, k.slice_int::<u16>(0x04).unwrap());
    assert_eq!(0x0506, k.slice_int::<u16>(0x05).unwrap());
    assert_eq!(0x0607, k.slice_int::<u16>(0x06).unwrap());
    assert_eq!(0x0708, k.slice_int::<u16>(0x07).unwrap());
    assert_eq!(0x0809, k.slice_int::<u16>(0x08).unwrap());
    assert_eq!(0x090a, k.slice_int::<u16>(0x09).unwrap());
    assert_eq!(0x0a0b, k.slice_int::<u16>(0x0a).unwrap());
    assert_eq!(0x0b0c, k.slice_int::<u16>(0x0b).unwrap());
    assert_eq!(0x0c0d, k.slice_int::<u16>(0x0c).unwrap());
    assert_eq!(0x0d0e, k.slice_int::<u16>(0x0d).unwrap());
    assert_eq!(0x0e0f, k.slice_int::<u16>(0x0e).unwrap());
    assert_eq!(0x0f10, k.slice_int::<u16>(0x0f).unwrap());
    assert_eq!(0x1011, k.slice_int::<u16>(0x10).unwrap());
    assert_eq!(0x1112, k.slice_int::<u16>(0x11).unwrap());
    assert_eq!(0x1213, k.slice_int::<u16>(0x12).unwrap());
    assert_eq!(0x1314, k.slice_int::<u16>(0x13).unwrap());
    assert_eq!(0x1415, k.slice_int::<u16>(0x14).unwrap());
    assert_eq!(0x1516, k.slice_int::<u16>(0x15).unwrap());
    assert_eq!(0x1617, k.slice_int::<u16>(0x16).unwrap());
    assert_eq!(0x1718, k.slice_int::<u16>(0x17).unwrap());
    assert_eq!(0x1819, k.slice_int::<u16>(0x18).unwrap());
    assert_eq!(0x191a, k.slice_int::<u16>(0x19).unwrap());
    assert_eq!(0x1a1b, k.slice_int::<u16>(0x1a).unwrap());
    assert_eq!(0x1b1c, k.slice_int::<u16>(0x1b).unwrap());
    assert_eq!(0x1c1d, k.slice_int::<u16>(0x1c).unwrap());
    assert_eq!(0x1d1e, k.slice_int::<u16>(0x1d).unwrap());
    assert_eq!(0x1e1f, k.slice_int::<u16>(0x1e).unwrap());
}

#[test]
fn slice_u32() {
    let k = fingerprint_hash();
    assert_eq!(0x00010203, k.slice_int::<u32>(0x00).unwrap());
    assert_eq!(0x01020304, k.slice_int::<u32>(0x01).unwrap());
    assert_eq!(0x02030405, k.slice_int::<u32>(0x02).unwrap());
    assert_eq!(0x03040506, k.slice_int::<u32>(0x03).unwrap());
    assert_eq!(0x04050607, k.slice_int::<u32>(0x04).unwrap());
    assert_eq!(0x05060708, k.slice_int::<u32>(0x05).unwrap());
    assert_eq!(0x06070809, k.slice_int::<u32>(0x06).unwrap());
    assert_eq!(0x0708090a, k.slice_int::<u32>(0x07).unwrap());
    assert_eq!(0x08090a0b, k.slice_int::<u32>(0x08).unwrap());
    assert_eq!(0x090a0b0c, k.slice_int::<u32>(0x09).unwrap());
    assert_eq!(0x0a0b0c0d, k.slice_int::<u32>(0x0a).unwrap());
    assert_eq!(0x0b0c0d0e, k.slice_int::<u32>(0x0b).unwrap());
    assert_eq!(0x0c0d0e0f, k.slice_int::<u32>(0x0c).unwrap());
    assert_eq!(0x0d0e0f10, k.slice_int::<u32>(0x0d).unwrap());
    assert_eq!(0x0e0f1011, k.slice_int::<u32>(0x0e).unwrap());
    assert_eq!(0x0f101112, k.slice_int::<u32>(0x0f).unwrap());
    assert_eq!(0x10111213, k.slice_int::<u32>(0x10).unwrap());
    assert_eq!(0x11121314, k.slice_int::<u32>(0x11).unwrap());
    assert_eq!(0x12131415, k.slice_int::<u32>(0x12).unwrap());
    assert_eq!(0x13141516, k.slice_int::<u32>(0x13).unwrap());
    assert_eq!(0x14151617, k.slice_int::<u32>(0x14).unwrap());
    assert_eq!(0x15161718, k.slice_int::<u32>(0x15).unwrap());
    assert_eq!(0x16171819, k.slice_int::<u32>(0x16).unwrap());
    assert_eq!(0x1718191a, k.slice_int::<u32>(0x17).unwrap());
    assert_eq!(0x18191a1b, k.slice_int::<u32>(0x18).unwrap());
    assert_eq!(0x191a1b1c, k.slice_int::<u32>(0x19).unwrap());
    assert_eq!(0x1a1b1c1d, k.slice_int::<u32>(0x1a).unwrap());
    assert_eq!(0x1b1c1d1e, k.slice_int::<u32>(0x1b).unwrap());
    assert_eq!(0x1c1d1e1f, k.slice_int::<u32>(0x1c).unwrap());
}

#[test]
fn slice_u64() {
    let k = fingerprint_hash();
    assert_eq!(0x0001020304050607, k.slice_int::<u64>(0x00).unwrap());
    assert_eq!(0x0102030405060708, k.slice_int::<u64>(0x01).unwrap());
    assert_eq!(0x0203040506070809, k.slice_int::<u64>(0x02).unwrap());
    assert_eq!(0x030405060708090a, k.slice_int::<u64>(0x03).unwrap());
    assert_eq!(0x0405060708090a0b, k.slice_int::<u64>(0x04).unwrap());
    assert_eq!(0x05060708090a0b0c, k.slice_int::<u64>(0x05).unwrap());
    assert_eq!(0x060708090a0b0c0d, k.slice_int::<u64>(0x06).unwrap());
    assert_eq!(0x0708090a0b0c0d0e, k.slice_int::<u64>(0x07).unwrap());
    assert_eq!(0x08090a0b0c0d0e0f, k.slice_int::<u64>(0x08).unwrap());
    assert_eq!(0x090a0b0c0d0e0f10, k.slice_int::<u64>(0x09).unwrap());
    assert_eq!(0x0a0b0c0d0e0f1011, k.slice_int::<u64>(0x0a).unwrap());
    assert_eq!(0x0b0c0d0e0f101112, k.slice_int::<u64>(0x0b).unwrap());
    assert_eq!(0x0c0d0e0f10111213, k.slice_int::<u64>(0x0c).unwrap());
    assert_eq!(0x0d0e0f1011121314, k.slice_int::<u64>(0x0d).unwrap());
    assert_eq!(0x0e0f101112131415, k.slice_int::<u64>(0x0e).unwrap());
    assert_eq!(0x0f10111213141516, k.slice_int::<u64>(0x0f).unwrap());
    assert_eq!(0x1011121314151617, k.slice_int::<u64>(0x10).unwrap());
    assert_eq!(0x1112131415161718, k.slice_int::<u64>(0x11).unwrap());
    assert_eq!(0x1213141516171819, k.slice_int::<u64>(0x12).unwrap());
    assert_eq!(0x131415161718191a, k.slice_int::<u64>(0x13).unwrap());
    assert_eq!(0x1415161718191a1b, k.slice_int::<u64>(0x14).unwrap());
    assert_eq!(0x15161718191a1b1c, k.slice_int::<u64>(0x15).unwrap());
    assert_eq!(0x161718191a1b1c1d, k.slice_int::<u64>(0x16).unwrap());
    assert_eq!(0x1718191a1b1c1d1e, k.slice_int::<u64>(0x17).unwrap());
    assert_eq!(0x18191a1b1c1d1e1f, k.slice_int::<u64>(0x18).unwrap());
}

#[test]
fn slice_u128() {
    let k = fingerprint_hash();
    assert_eq!(0x000102030405060708090a0b0c0d0e0f, k.slice_int::<u128>(0x00).unwrap());
    assert_eq!(0x0102030405060708090a0b0c0d0e0f10, k.slice_int::<u128>(0x01).unwrap());
    assert_eq!(0x02030405060708090a0b0c0d0e0f1011, k.slice_int::<u128>(0x02).unwrap());
    assert_eq!(0x030405060708090a0b0c0d0e0f101112, k.slice_int::<u128>(0x03).unwrap());
    assert_eq!(0x0405060708090a0b0c0d0e0f10111213, k.slice_int::<u128>(0x04).unwrap());
    assert_eq!(0x05060708090a0b0c0d0e0f1011121314, k.slice_int::<u128>(0x05).unwrap());
    assert_eq!(0x060708090a0b0c0d0e0f101112131415, k.slice_int::<u128>(0x06).unwrap());
    assert_eq!(0x0708090a0b0c0d0e0f10111213141516, k.slice_int::<u128>(0x07).unwrap());
    assert_eq!(0x08090a0b0c0d0e0f1011121314151617, k.slice_int::<u128>(0x08).unwrap());
    assert_eq!(0x090a0b0c0d0e0f101112131415161718, k.slice_int::<u128>(0x09).unwrap());
    assert_eq!(0x0a0b0c0d0e0f10111213141516171819, k.slice_int::<u128>(0x0a).unwrap());
    assert_eq!(0x0b0c0d0e0f101112131415161718191a, k.slice_int::<u128>(0x0b).unwrap());
    assert_eq!(0x0c0d0e0f101112131415161718191a1b, k.slice_int::<u128>(0x0c).unwrap());
    assert_eq!(0x0d0e0f101112131415161718191a1b1c, k.slice_int::<u128>(0x0d).unwrap());
    assert_eq!(0x0e0f101112131415161718191a1b1c1d, k.slice_int::<u128>(0x0e).unwrap());
    assert_eq!(0x0f101112131415161718191a1b1c1d1e, k.slice_int::<u128>(0x0f).unwrap());
    assert_eq!(0x101112131415161718191a1b1c1d1e1f, k.slice_int::<u128>(0x10).unwrap());
}

#[test]
fn out_of_bounds_slice() {
    let k = Keyword::new("test".to_string());
    assert_eq!(k.slice_int::<u8>(0x20), None);
    assert_eq!(k.slice_int::<u16>(0x1f), None);
    assert_eq!(k.slice_int::<u32>(0x1d), None);
    assert_eq!(k.slice_int::<u64>(0x19), None);
    assert_eq!(k.slice_int::<u128>(0x11), None);
}

#[test]
fn lower_slices_agree() {
    let k = fingerprint_hash();
    assert_eq!(k.lower_16(), 0x0001);
    assert_eq!(k.lower_32(), 0x00010203);
    assert_eq!(k.lower_64(), 0x0001020304050607);
    assert_eq!(k.lower_128(), 0x000102030405060708090a0b0c0d0e0f);
}

#[test]
fn pretty_hash_format() {
    let k = fingerprint_hash();
    assert_eq!(
        k.pretty_hash(),
        "10203 4050607 8090a0b c0d0e0f 10111213 14151617 18191a1b 1c1d1e1f"
    );
}

#[test]
fn seed_index_in_range() {
    for n in [1u64, 2, 7, 16, 1000] {
        for text in ["", "alpha", "beta", "a rather longer passphrase"] {
            let k = Keyword::new(text.to_string());
            assert!(k.seed_index(n) < n);
        }
    }
}

#[test]
fn seed_index_is_hash_mod_n() {
    // A hash holding the big-endian value 0x0102 reduces like that value.
    let mut hash = [0u8; 32];
    hash[30] = 0x01;
    hash[31] = 0x02;
    let k = Keyword::from_hash("x".to_string(), hash);
    assert_eq!(k.seed_index(16), 0x0102 % 16);
    assert_eq!(k.seed_index(1000), 0x0102 % 1000);
}

#[test]
fn block_keys_differ_by_position() {
    let k = Keyword::new("alpha".to_string());
    assert_ne!(k.block_key(0), k.block_key(1));
}
