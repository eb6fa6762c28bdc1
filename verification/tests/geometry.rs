use filesys::commands::info;
use filesys::error::FsError;
use filesys::fat32::{BootSector, FAT32};

fn put_u16(image: &mut Vec<u8>, pos: usize, v: u16) {
    image[pos..pos + 2].copy_from_slice(&v.to_le_bytes());
}

fn put_u32(image: &mut Vec<u8>, pos: usize, v: u32) {
    image[pos..pos + 4].copy_from_slice(&v.to_le_bytes());
}

fn fresh_image() -> Vec<u8> {
    let mut image = vec![0u8; 1024 * 1024];
    put_u16(&mut image, 11, 512);
    image[13] = 1;
    put_u16(&mut image, 14, 32);
    image[16] = 2;
    put_u32(&mut image, 32, 2048);
    put_u32(&mut image, 36, 16);
    put_u32(&mut image, 44, 2);
    put_u16(&mut image, 510, 0xAA55);
    let fat = 32 * 512;
    put_u32(&mut image, fat, 0x0FFF_FFF8);
    put_u32(&mut image, fat + 4, 0x0FFF_FFFF);
    put_u32(&mut image, fat + 8, 0x0FFF_FFF8);
    image
}

#[test]
fn boot_sector_fields_are_parsed() {
    let image = fresh_image();
    let bs = FAT32::read_boot_sector(&image).unwrap();
    assert_eq!(
        bs,
        BootSector {
            bytes_per_sector: 512,
            sectors_per_cluster: 1,
            reserved_sector_count: 32,
            num_fats: 2,
            total_sectors: 2048,
            fat_size_32: 16,
            root_cluster: 2,
            signature: 0xAA55,
        }
    );
}

#[test]
fn geometry_is_derived_from_the_boot_sector() {
    let image = fresh_image();
    let fs = FAT32::new(&image).unwrap();
    assert_eq!(fs.fat_offset, 32 * 512);
    assert_eq!(fs.data_region_offset, 32 * 512 + 2 * 16 * 512);
    assert_eq!(fs.total_clusters, 2048 - 32 - 32);
    assert_eq!(fs.bytes_per_cluster(), 512);
}

#[test]
fn sixteen_bit_fields_are_used_where_the_wide_ones_are_zero() {
    let mut image = fresh_image();
    put_u32(&mut image, 32, 0);
    put_u16(&mut image, 19, 2000);
    put_u32(&mut image, 36, 0);
    put_u16(&mut image, 22, 8);
    let bs = FAT32::read_boot_sector(&image).unwrap();
    assert_eq!(bs.total_sectors, 2000);
    assert_eq!(bs.fat_size_32, 8);
    let fs = FAT32::new(&image).unwrap();
    assert_eq!(fs.total_clusters, 2000 - 32 - 16);
}

#[test]
fn wide_fields_win_over_the_sixteen_bit_ones() {
    let mut image = fresh_image();
    put_u16(&mut image, 19, 1000);
    put_u16(&mut image, 22, 4);
    let bs = FAT32::read_boot_sector(&image).unwrap();
    assert_eq!(bs.total_sectors, 2048);
    assert_eq!(bs.fat_size_32, 16);
}

#[test]
fn wrong_signature_is_an_invalid_image() {
    let mut image = fresh_image();
    put_u16(&mut image, 510, 0xAA54);
    assert_eq!(FAT32::new(&image), Err(FsError::InvalidImage));
}

#[test]
fn short_image_is_an_io_error() {
    let image = vec![0u8; 511];
    assert_eq!(FAT32::new(&image), Err(FsError::Io));
    assert_eq!(FAT32::read_boot_sector(&image), Err(FsError::Io));
}

#[test]
fn right_signature_is_enough_to_mount() {
    let mut image = fresh_image();
    put_u16(&mut image, 11, 32);
    let fs = FAT32::new(&image).unwrap();
    assert_eq!(fs.bytes_per_cluster(), 32);
    assert_eq!(fs.total_clusters, 2048 - 32 - 32);
    assert_eq!(fs.fat_offset, 32 * 32);
    assert_eq!(fs.data_region_offset, 32 * 32 + 2 * 16 * 32);
    put_u16(&mut image, 11, 0);
    let fs = FAT32::new(&image).unwrap();
    assert_eq!(fs.bytes_per_cluster(), 0);
    assert_eq!(fs.data_region_offset, 0);
}

#[test]
fn more_clusters_than_fat_entries_can_number_still_mount() {
    let mut image = fresh_image();
    put_u32(&mut image, 32, 0x2000_0000);
    let fs = FAT32::new(&image).unwrap();
    assert_eq!(fs.total_clusters, 0x2000_0000 - 64);
    assert!(!fs.is_sound());
}

#[test]
fn cluster_size_decides_what_a_volume_can_hold() {
    let mut image = fresh_image();
    let fs = FAT32::new(&image).unwrap();
    assert!(fs.can_hold_data());
    assert!(fs.can_hold_directories());
    assert!(fs.is_sound());
    put_u16(&mut image, 11, 63);
    let fs = FAT32::new(&image).unwrap();
    assert!(fs.can_hold_data());
    assert!(!fs.can_hold_directories());
    assert!(!fs.is_sound());
    put_u16(&mut image, 11, 64);
    let fs = FAT32::new(&image).unwrap();
    assert!(fs.can_hold_directories());
    assert!(!fs.is_sound());
    put_u16(&mut image, 11, 0);
    let fs = FAT32::new(&image).unwrap();
    assert!(!fs.can_hold_data());
    assert!(!fs.can_hold_directories());
}

#[test]
fn geometry_without_a_fat_is_not_sound() {
    let mut image = fresh_image();
    image[16] = 0;
    let fs = FAT32::new(&image).unwrap();
    assert!(!fs.is_sound());
    image[16] = 1;
    put_u32(&mut image, 36, 8);
    let fs = FAT32::new(&image).unwrap();
    assert!(!fs.is_sound());
}

#[test]
fn zero_sectors_per_cluster_is_an_invalid_image() {
    let mut image = fresh_image();
    image[13] = 0;
    assert_eq!(FAT32::new(&image), Err(FsError::InvalidImage));
}

#[test]
fn system_area_larger_than_the_volume_is_an_invalid_image() {
    let mut image = fresh_image();
    put_u32(&mut image, 32, 40);
    assert_eq!(FAT32::new(&image), Err(FsError::InvalidImage));
}

#[test]
fn mounting_does_not_write() {
    let image = fresh_image();
    let copy = image.clone();
    let _ = FAT32::new(&image).unwrap();
    assert_eq!(image, copy);
}

#[test]
fn cluster_offsets_count_from_cluster_two() {
    let image = fresh_image();
    let fs = FAT32::new(&image).unwrap();
    assert_eq!(fs.cluster_to_offset(2), 32768);
    assert_eq!(fs.cluster_to_offset(3), 32768 + 512);
    assert_eq!(fs.cluster_to_offset(10), 32768 + 8 * 512);
}

#[test]
fn info_reports_the_figures_of_the_volume() {
    let image = fresh_image();
    let fs = FAT32::new(&image).unwrap();
    let figures = info(&fs);
    assert_eq!(figures.root_cluster, 2);
    assert_eq!(figures.bytes_per_sector, 512);
    assert_eq!(figures.sectors_per_cluster, 1);
    assert_eq!(figures.total_clusters, 1984);
    assert_eq!(figures.fat_entries, 16 * 512 / 4);
    assert_eq!(figures.image_size, 1024 * 1024);
}
