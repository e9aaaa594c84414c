use aspects::device::{BlockDevice, RAMDisk, SECTOR_SIZE};
use aspects::sector::Sector;

#[test]
fn read_and_write() {
    let mut disk = RAMDisk::new(10);
    let sector = [0xff; SECTOR_SIZE];
    disk.write_sector(0, sector);
    assert_eq!(disk.read_sector(0), sector);
}

#[test]
fn device_read_and_write() {
    let mut disk = RAMDisk::new(10);
    let sector = Sector::new_rand().into_bytes();
    disk.write_sector(0, sector);
    assert_eq!(disk.read_sector(0), sector);
}

#[test]
fn sector_size_sanity() {
    assert!(aspects::config::SECTOR_SIZE > 0);
}

#[test]
fn fresh_disk_is_zeroed() {
    let mut disk = RAMDisk::new(3);
    assert_eq!(disk.n_sectors(), 3);
    assert_eq!(disk.read_sector(2), [0u8; SECTOR_SIZE]);
}

#[test]
fn random_sectors_differ() {
    let a = Sector::new_rand().into_bytes();
    let b = Sector::new_rand().into_bytes();
    assert_ne!(a, b);
}

#[test]
fn sector_crc_matches_crc64() {
    let s = Sector::new();
    let bytes = [0u8; SECTOR_SIZE];
    assert_eq!(s.crc(), aspects::crc::crc64(&bytes));
}
