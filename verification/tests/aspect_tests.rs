use aspects::aspect::{
    append_chain_block, load_chain, move_chain_block, write_chain_seed, Aspect, Error,
};
use aspects::block::Block;
use aspects::device::RAMDisk;
use aspects::extent::Extent;
use aspects::keyword::Keyword;

fn fresh_handle(n: usize) -> aspects::extent::ExtentHandle<RAMDisk> {
    Extent::new(RAMDisk::new(n)).to_handle()
}

fn data_block(data: &[u8]) -> Block {
    let mut b = Block::new();
    b.set_data(data);
    b
}

#[test]
fn create_and_reopen_single_block() {
    let handle = fresh_handle(16);
    let aspect = handle.create_aspect(Keyword::new("solo".to_string())).unwrap();
    assert_eq!(aspect.len(), 1);
    drop(aspect);
    let device = handle.into_extent().into_device();
    let handle = Extent::new(device).to_handle();
    let mut reopened = Aspect::read_aspect(&handle, Keyword::new("solo".to_string())).unwrap();
    assert_eq!(reopened.len(), 1);
    assert!(reopened.read_block(0).unwrap().validate_checksum());
}

#[test]
fn end_to_end_scenario() {
    let handle = fresh_handle(16);

    // Create aspect "alpha" and write three blocks of data.
    let mut alpha = handle.create_aspect(Keyword::new("alpha".to_string())).unwrap();
    alpha.write_block(0, data_block(b"alpha block zero")).unwrap();
    alpha.write_block(1, data_block(b"alpha block one")).unwrap();
    alpha.write_block(2, data_block(b"alpha block two")).unwrap();
    assert_eq!(alpha.len(), 3);

    // Create aspect "beta" with a different keyword: it lands on a free
    // position, never over alpha's blocks.
    let beta = handle.create_aspect(Keyword::new("beta".to_string())).unwrap();
    assert_eq!(beta.len(), 1);
    drop(alpha);
    drop(beta);

    // Reopen alpha by keyword alone, in a fresh session over the same
    // device: the occupancy bitmap starts empty, only the disk speaks.
    let device = handle.into_extent().into_device();
    let handle = Extent::new(device).to_handle();
    let mut alpha = Aspect::read_aspect(&handle, Keyword::new("alpha".to_string())).unwrap();
    assert_eq!(alpha.len(), 3);
    let b0 = alpha.read_block(0).unwrap();
    let b1 = alpha.read_block(1).unwrap();
    let b2 = alpha.read_block(2).unwrap();
    assert!(b0.validate_checksum());
    assert!(b1.validate_checksum());
    assert!(b2.validate_checksum());
    assert_eq!(&b0.data[..16], b"alpha block zero");
    assert_eq!(&b1.data[..15], b"alpha block one");
    assert_eq!(&b2.data[..15], b"alpha block two");

    // Beta still loads too.
    let beta = Aspect::read_aspect(&handle, Keyword::new("beta".to_string())).unwrap();
    assert_eq!(beta.len(), 1);
    drop(beta);

    // A keyword that was never written reports absence, not a decode error.
    match Aspect::read_aspect(&handle, Keyword::new("gamma".to_string())) {
        Err(Error::SeedNotFound) => {},
        Err(other) => panic!("expected absence, got {other:?}"),
        Ok(_) => panic!("expected absence, found an aspect"),
    }
}

#[test]
fn colliding_seeds_resolve_by_probing() {
    // Two keywords crafted to derive the same seed position.
    let mut h1 = [0u8; 32];
    h1[31] = 4;
    let mut h2 = [0u8; 32];
    h2[31] = 4 + 16;
    let k = |h| Keyword::from_hash("crafted".to_string(), h);
    assert_eq!(k(h1).seed_index(16), k(h2).seed_index(16));

    let handle = fresh_handle(16);
    let first = handle.create_aspect(k(h1)).unwrap();
    let second = handle.create_aspect(k(h2)).unwrap();
    drop(first);
    drop(second);

    // Both survive a fresh session: neither overwrote the other's seed.
    let device = handle.into_extent().into_device();
    let handle = Extent::new(device).to_handle();
    assert_eq!(Aspect::read_aspect(&handle, k(h1)).unwrap().len(), 1);
    assert_eq!(Aspect::read_aspect(&handle, k(h2)).unwrap().len(), 1);
}

#[test]
fn out_of_range_pointer_surfaces_bad_pointer() {
    let handle = fresh_handle(16);
    let kw = Keyword::new("delta".to_string());
    let seed = kw.seed_index(16);
    // Forge a validating seed block whose chain pointer leaves the extent.
    let mut forged = Block::new();
    forged.set_next(9999);
    handle.write_block(seed, forged.encrypt(kw.block_key(0))).unwrap();
    match Aspect::read_aspect(&handle, Keyword::new("delta".to_string())) {
        Err(Error::BadPointer) => {},
        other => panic!("expected a bad pointer, got {:?}", other.map(|a| a.len())),
    }
}

#[test]
fn cyclic_pointer_surfaces_bad_pointer() {
    let handle = fresh_handle(16);
    let kw = Keyword::new("epsilon".to_string());
    let seed = kw.seed_index(16);
    // Forge a validating seed block that points back at itself.
    let mut forged = Block::new();
    forged.set_next(seed);
    handle.write_block(seed, forged.encrypt(kw.block_key(0))).unwrap();
    match Aspect::read_aspect(&handle, Keyword::new("epsilon".to_string())) {
        Err(Error::BadPointer) => {},
        other => panic!("expected a cycle report, got {:?}", other.map(|a| a.len())),
    }
}

#[test]
fn write_past_end_is_rejected() {
    let handle = fresh_handle(16);
    let mut aspect = handle.create_aspect(Keyword::new("zeta".to_string())).unwrap();
    assert_eq!(aspect.write_block(5, data_block(b"far out")), Err(Error::BadPointer));
    assert_eq!(aspect.len(), 1);
}

#[test]
fn full_extent_reports_extent_full() {
    // Every block of a two-block extent is taken by the first two aspects.
    let handle = fresh_handle(2);
    let a = handle.create_aspect(Keyword::new("one".to_string())).unwrap();
    let b = handle.create_aspect(Keyword::new("two".to_string())).unwrap();
    match handle.create_aspect(Keyword::new("three".to_string())) {
        Err(Error::ExtentFull) => {},
        _ => panic!("expected a full extent"),
    }
    drop(a);
    drop(b);
}

#[test]
fn overwrite_keeps_chain_intact() {
    let handle = fresh_handle(16);
    let mut aspect = handle.create_aspect(Keyword::new("eta".to_string())).unwrap();
    aspect.write_block(1, data_block(b"first version")).unwrap();
    aspect.write_block(2, data_block(b"tail")).unwrap();
    aspect.write_block(1, data_block(b"second version")).unwrap();
    assert_eq!(aspect.len(), 3);
    drop(aspect);
    let device = handle.into_extent().into_device();
    let handle = Extent::new(device).to_handle();
    let mut aspect = Aspect::read_aspect(&handle, Keyword::new("eta".to_string())).unwrap();
    assert_eq!(aspect.len(), 3);
    let b1 = aspect.read_block(1).unwrap();
    assert_eq!(&b1.data[..14], b"second version");
    let b2 = aspect.read_block(2).unwrap();
    assert_eq!(&b2.data[..4], b"tail");
}

#[test]
fn moved_blocks_keep_their_content() {
    let handle = fresh_handle(16);
    let mut aspect = handle.create_aspect(Keyword::new("iota".to_string())).unwrap();
    aspect.write_block(1, data_block(b"middle")).unwrap();
    aspect.write_block(2, data_block(b"tail")).unwrap();
    // Relocate the middle block, probing from a far corner of the extent.
    aspect.move_block(1, 13).unwrap();
    drop(aspect);
    // The chain survives a fresh session: the predecessor points at the new
    // position and the content decodes under the same position key.
    let device = handle.into_extent().into_device();
    let handle = Extent::new(device).to_handle();
    let mut aspect = Aspect::read_aspect(&handle, Keyword::new("iota".to_string())).unwrap();
    assert_eq!(aspect.len(), 3);
    assert_eq!(&aspect.read_block(1).unwrap().data[..6], b"middle");
    assert_eq!(&aspect.read_block(2).unwrap().data[..4], b"tail");
}

#[test]
fn moved_seed_is_still_found() {
    let handle = fresh_handle(16);
    let mut aspect = handle.create_aspect(Keyword::new("kappa".to_string())).unwrap();
    aspect.write_block(0, data_block(b"seed content")).unwrap();
    aspect.move_block(0, 11).unwrap();
    drop(aspect);
    let device = handle.into_extent().into_device();
    let handle = Extent::new(device).to_handle();
    let mut aspect = Aspect::read_aspect(&handle, Keyword::new("kappa".to_string())).unwrap();
    assert_eq!(aspect.len(), 1);
    assert_eq!(&aspect.read_block(0).unwrap().data[..12], b"seed content");
}

#[test]
fn chain_building_and_loading_compose() {
    let mut ext = Extent::new(RAMDisk::new(16));
    let kw = Keyword::new("direct".to_string());
    let seed = write_chain_seed(&mut ext, &kw, data_block(b"head")).unwrap();
    let second = append_chain_block(&mut ext, &kw, &vec![seed], data_block(b"middle")).unwrap();
    let third =
        append_chain_block(&mut ext, &kw, &vec![seed, second], data_block(b"tail")).unwrap();
    // A fresh session walks the chain back, whole and in order.
    let mut ext = Extent::new(ext.into_device());
    let found = load_chain(&mut ext, &kw).unwrap();
    assert_eq!(found, vec![seed, second, third]);
}

#[test]
fn relocated_chain_reloads_exactly() {
    let mut ext = Extent::new(RAMDisk::new(16));
    let kw = Keyword::new("moved".to_string());
    let seed = write_chain_seed(&mut ext, &kw, data_block(b"head")).unwrap();
    let second = append_chain_block(&mut ext, &kw, &vec![seed], data_block(b"mid")).unwrap();
    let moved = move_chain_block(&mut ext, &kw, &vec![seed, second], 1, 9).unwrap();
    assert_ne!(moved, second);
    assert!(!ext.is_allocated(second));
    assert!(ext.is_allocated(moved));
    // A fresh session walks the relocated chain back, whole and in order.
    let mut ext = Extent::new(ext.into_device());
    let found = load_chain(&mut ext, &kw).unwrap();
    assert_eq!(found, vec![seed, moved]);
}

#[test]
fn reading_past_chain_end_fails() {
    let handle = fresh_handle(16);
    let mut aspect = handle.create_aspect(Keyword::new("theta".to_string())).unwrap();
    match aspect.read_block(1) {
        Err(Error::BadPointer) => {},
        other => panic!("expected an end-of-chain error, got {:?}", other.map(|b| b.header)),
    }
}
