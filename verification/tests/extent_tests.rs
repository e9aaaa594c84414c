use aspects::block::{Block, EncryptedBlock};
use aspects::device::RAMDisk;
use aspects::extent::Extent;

fn small_extent(n: usize) -> Extent<RAMDisk> {
    Extent::new(RAMDisk::new(n))
}

#[test]
fn fresh_extent_is_unallocated() {
    let e = small_extent(8);
    assert_eq!(e.n_blocks(), 8);
    for i in 0..8 {
        assert!(!e.is_allocated(i));
    }
}

#[test]
fn reserve_then_collision() {
    let mut e = small_extent(8);
    assert_eq!(e.reserve_block(3), Ok(()));
    assert!(e.is_allocated(3));
    assert_eq!(e.reserve_block(3), Err(()));
}

#[test]
fn deallocate_frees() {
    let mut e = small_extent(8);
    e.alloc_block(5);
    assert!(e.is_allocated(5));
    e.deallocate_block(5);
    assert!(!e.is_allocated(5));
}

#[test]
fn alloc_probes_forward_and_wraps() {
    let mut e = small_extent(4);
    e.alloc_block(2);
    e.alloc_block(3);
    assert_eq!(e.alloc_next_block(2), Some(0));
    assert_eq!(e.alloc_next_block(2), Some(1));
    assert_eq!(e.alloc_next_block(2), None);
}

#[test]
fn alloc_is_deterministic() {
    let mut a = small_extent(8);
    let mut b = small_extent(8);
    a.alloc_block(1);
    b.alloc_block(1);
    assert_eq!(a.alloc_next_block(1), b.alloc_next_block(1));
}

#[test]
fn allocations_never_repeat() {
    let mut e = small_extent(8);
    let mut ids = Vec::new();
    for start in [3u64, 3, 7, 0, 5] {
        let id = e.alloc_next_block(start).unwrap();
        assert!(!ids.contains(&id));
        ids.push(id);
    }
    // The bitmap's population count equals the number of allocations.
    let occupied = (0..8).filter(|&i| e.is_allocated(i)).count();
    assert_eq!(occupied, ids.len());
}

#[test]
fn handle_round_trips_blocks() {
    let handle = small_extent(4).to_handle();
    assert_eq!(handle.n_blocks(), 4);
    let image = Block::new().encrypt([9u8; 32]);
    handle.write_block(2, image).unwrap();
    let back = handle.read_block(2).unwrap();
    assert_eq!(back.into_bytes(), image.into_bytes());
    let untouched = handle.read_block(1).unwrap();
    assert_eq!(untouched.into_bytes(), EncryptedBlock::new().into_bytes());
}
