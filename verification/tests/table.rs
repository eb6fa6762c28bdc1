use filesys::error::FsError;
use filesys::fat32::FAT32;

fn put_u16(image: &mut Vec<u8>, pos: usize, v: u16) {
    image[pos..pos + 2].copy_from_slice(&v.to_le_bytes());
}

fn put_u32(image: &mut Vec<u8>, pos: usize, v: u32) {
    image[pos..pos + 4].copy_from_slice(&v.to_le_bytes());
}

fn fresh_image() -> Vec<u8> {
    let mut image = vec![0u8; 1024 * 1024];
    put_u16(&mut image, 11, 512);
    image[13] = 1;
    put_u16(&mut image, 14, 32);
    image[16] = 2;
    put_u32(&mut image, 32, 2048);
    put_u32(&mut image, 36, 16);
    put_u32(&mut image, 44, 2);
    put_u16(&mut image, 510, 0xAA55);
    let fat = 32 * 512;
    put_u32(&mut image, fat, 0x0FFF_FFF8);
    put_u32(&mut image, fat + 4, 0x0FFF_FFFF);
    put_u32(&mut image, fat + 8, 0x0FFF_FFF8);
    image
}

const FAT: usize = 32 * 512;

#[test]
fn next_cluster_is_the_low_28_bits() {
    let mut image = fresh_image();
    let fs = FAT32::new(&image).unwrap();
    put_u32(&mut image, FAT + 4 * 5, 0xF000_0007);
    assert_eq!(fs.get_next_cluster(&image, 5), Ok(7));
    assert_eq!(fs.get_next_cluster(&image, 2), Ok(0x0FFF_FFF8));
    assert_eq!(fs.get_next_cluster(&image, 6), Ok(0));
}

#[test]
fn next_cluster_outside_the_image_is_an_io_error() {
    let image = fresh_image();
    let fs = FAT32::new(&image).unwrap();
    assert_eq!(fs.get_next_cluster(&image, 0x0FFF_FFF0), Err(FsError::Io));
    assert_eq!(fs.get_next_cluster(&image, u32::MAX), Err(FsError::Io));
}

#[test]
fn set_next_cluster_clears_the_high_bits() {
    let mut image = fresh_image();
    let fs = FAT32::new(&image).unwrap();
    put_u32(&mut image, FAT + 4 * 9, 0xFFFF_FFFF);
    fs.set_next_cluster(&mut image, 9, 0xF000_0012).unwrap();
    assert_eq!(&image[FAT + 36..FAT + 40], &[0x12, 0x00, 0x00, 0x00]);
    assert_eq!(fs.get_next_cluster(&image, 9), Ok(0x12));
}

#[test]
fn set_next_cluster_outside_the_image_changes_nothing() {
    let mut image = fresh_image();
    let fs = FAT32::new(&image).unwrap();
    let copy = image.clone();
    assert_eq!(fs.set_next_cluster(&mut image, 0x0FFF_FFF0, 3), Err(FsError::Io));
    assert_eq!(image, copy);
}

#[test]
fn chain_follows_links_to_the_end_mark() {
    let mut image = fresh_image();
    let fs = FAT32::new(&image).unwrap();
    fs.set_next_cluster(&mut image, 5, 9).unwrap();
    fs.set_next_cluster(&mut image, 9, 6).unwrap();
    fs.set_next_cluster(&mut image, 6, 0x0FFF_FFFF).unwrap();
    assert_eq!(fs.get_cluster_chain(&image, 5), Ok(vec![5, 9, 6]));
    assert_eq!(fs.get_cluster_chain(&image, 9), Ok(vec![9, 6]));
}

#[test]
fn chain_of_an_empty_file_is_empty() {
    let image = fresh_image();
    let fs = FAT32::new(&image).unwrap();
    assert_eq!(fs.get_cluster_chain(&image, 0), Ok(vec![]));
    assert_eq!(fs.get_cluster_chain(&image, 0x0FFF_FFF8), Ok(vec![]));
}

#[test]
fn chain_stops_at_a_free_entry() {
    let mut image = fresh_image();
    let fs = FAT32::new(&image).unwrap();
    fs.set_next_cluster(&mut image, 5, 9).unwrap();
    assert_eq!(fs.get_cluster_chain(&image, 5), Ok(vec![5, 9]));
}

#[test]
fn chain_that_runs_in_a_circle_is_an_io_error() {
    let mut image = fresh_image();
    let fs = FAT32::new(&image).unwrap();
    fs.set_next_cluster(&mut image, 5, 9).unwrap();
    fs.set_next_cluster(&mut image, 9, 5).unwrap();
    assert_eq!(fs.get_cluster_chain(&image, 5), Err(FsError::Io));
}

#[test]
fn allocation_takes_the_first_free_cluster_and_marks_it() {
    let mut image = fresh_image();
    let fs = FAT32::new(&image).unwrap();
    assert_eq!(fs.allocate_cluster(&mut image), Ok(3));
    assert_eq!(fs.get_next_cluster(&image, 3), Ok(0x0FFF_FFF8));
    assert_eq!(fs.allocate_cluster(&mut image), Ok(4));
    fs.set_next_cluster(&mut image, 3, 0).unwrap();
    assert_eq!(fs.allocate_cluster(&mut image), Ok(3));
}

#[test]
fn allocation_fails_when_no_cluster_is_free() {
    let mut image = fresh_image();
    let fs = FAT32::new(&image).unwrap();
    for c in 2..fs.total_clusters {
        fs.set_next_cluster(&mut image, c, 0x0FFF_FFF8).unwrap();
    }
    let copy = image.clone();
    assert_eq!(fs.allocate_cluster(&mut image), Err(FsError::NoSpace));
    assert_eq!(image, copy);
}

#[test]
fn allocation_never_hands_out_the_last_two_clusters() {
    let mut image = fresh_image();
    let fs = FAT32::new(&image).unwrap();
    for c in 2..fs.total_clusters {
        fs.set_next_cluster(&mut image, c, 0x0FFF_FFF8).unwrap();
    }
    assert_eq!(fs.get_next_cluster(&image, fs.total_clusters), Ok(0));
    assert_eq!(fs.allocate_cluster(&mut image), Err(FsError::NoSpace));
}

#[test]
fn freeing_a_chain_zeroes_its_entries_and_no_others() {
    let mut image = fresh_image();
    let fs = FAT32::new(&image).unwrap();
    fs.set_next_cluster(&mut image, 5, 9).unwrap();
    fs.set_next_cluster(&mut image, 9, 6).unwrap();
    fs.set_next_cluster(&mut image, 6, 0x0FFF_FFFF).unwrap();
    fs.set_next_cluster(&mut image, 7, 0x0FFF_FFFF).unwrap();
    fs.free_cluster_chain(&mut image, 5).unwrap();
    assert_eq!(fs.get_next_cluster(&image, 5), Ok(0));
    assert_eq!(fs.get_next_cluster(&image, 9), Ok(0));
    assert_eq!(fs.get_next_cluster(&image, 6), Ok(0));
    assert_eq!(fs.get_next_cluster(&image, 7), Ok(0x0FFF_FFFF));
    assert_eq!(fs.get_next_cluster(&image, 2), Ok(0x0FFF_FFF8));
}

#[test]
fn freeing_nothing_changes_nothing() {
    let mut image = fresh_image();
    let fs = FAT32::new(&image).unwrap();
    let copy = image.clone();
    fs.free_cluster_chain(&mut image, 0).unwrap();
    assert_eq!(image, copy);
}

#[test]
fn freeing_a_circle_ends() {
    let mut image = fresh_image();
    let fs = FAT32::new(&image).unwrap();
    fs.set_next_cluster(&mut image, 5, 9).unwrap();
    fs.set_next_cluster(&mut image, 9, 5).unwrap();
    assert_eq!(fs.free_cluster_chain(&mut image, 5), Ok(()));
    assert_eq!(fs.get_next_cluster(&image, 5), Ok(0));
    assert_eq!(fs.get_next_cluster(&image, 9), Ok(0));
}
