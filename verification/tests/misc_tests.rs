use aspects::address::Address;
use aspects::cmap::{split_index, CollisionMap};
use aspects::extent::Extent;
use aspects::sanity::max_address_table_size;
use aspects::sector::Sector;

#[test]
fn split_index_splits() {
    assert_eq!(split_index(0), (0, 0));
    assert_eq!(split_index(7), (0, 7));
    assert_eq!(split_index(8), (1, 0));
    assert_eq!(split_index(27), (3, 3));
}

#[test]
fn collision_map_reads_bits() {
    // 0b0000_0101 at byte 0, 0b1000_0000 at byte 1.
    let map = CollisionMap::new(vec![0x05, 0x80], 3);
    assert!(map.get(0));
    assert!(!map.get(1));
    assert!(map.get(2));
    assert!(!map.get(14));
    assert!(map.get(15));
}

#[test]
fn address_round_trips() {
    let a: Address<Extent<aspects::device::RAMDisk>> = Address::new(42);
    assert_eq!(a.value(), 42);
    let b: Address<Extent<aspects::device::RAMDisk>> = Address::from(7);
    assert_eq!(b.value(), 7);
    assert_eq!(a.clone().value(), 42);
}

#[test]
fn address_table_size_is_quotient() {
    assert_eq!(max_address_table_size(), 1_000_000_000_000 / 262144);
}

#[test]
fn sector_header_names_columns() {
    let h = Sector::header();
    assert!(h.starts_with("crc"));
    assert!(h.ends_with("3ff"));
}

#[test]
fn random_bytes_are_drawn() {
    let draws: Vec<u8> = (0..64).map(|_| aspects::random::rand_u8()).collect();
    assert!(draws.iter().any(|&b| b != draws[0]));
}
