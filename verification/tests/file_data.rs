use filesys::error::FsError;
use filesys::fat32::FAT32;
use filesys::image::{read_slice, read_u16, read_u32, write_slice, write_u32};

fn put_u16(image: &mut Vec<u8>, pos: usize, v: u16) {
    image[pos..pos + 2].copy_from_slice(&v.to_le_bytes());
}

fn put_u32(image: &mut Vec<u8>, pos: usize, v: u32) {
    image[pos..pos + 4].copy_from_slice(&v.to_le_bytes());
}

fn fresh_image() -> Vec<u8> {
    let mut image = vec![0u8; 1024 * 1024];
    put_u16(&mut image, 11, 512);
    image[13] = 1;
    put_u16(&mut image, 14, 32);
    image[16] = 2;
    put_u32(&mut image, 32, 2048);
    put_u32(&mut image, 36, 16);
    put_u32(&mut image, 44, 2);
    put_u16(&mut image, 510, 0xAA55);
    let fat = 32 * 512;
    put_u32(&mut image, fat, 0x0FFF_FFF8);
    put_u32(&mut image, fat + 4, 0x0FFF_FFFF);
    put_u32(&mut image, fat + 8, 0x0FFF_FFF8);
    image
}

fn pattern(len: usize) -> Vec<u8> {
    (0..len).map(|i| (i * 7 + 3) as u8).collect()
}

#[test]
fn image_reads_are_bounds_checked() {
    let image: Vec<u8> = vec![1, 2, 3, 4, 5];
    assert_eq!(read_slice(&image, 1, 3), Ok(&[2u8, 3, 4][..]));
    assert_eq!(read_slice(&image, 5, 0), Ok(&[][..]));
    assert_eq!(read_slice(&image, 3, 3), Err(FsError::Io));
    assert_eq!(read_slice(&image, u64::MAX, 1), Err(FsError::Io));
    assert_eq!(read_u16(&image, 3), Ok(0x0504));
    assert_eq!(read_u16(&image, 4), Err(FsError::Io));
    assert_eq!(read_u32(&image, 1), Ok(0x0504_0302));
    assert_eq!(read_u32(&image, 2), Err(FsError::Io));
}

#[test]
fn image_writes_are_bounds_checked() {
    let mut image: Vec<u8> = vec![1, 2, 3, 4, 5];
    write_slice(&mut image, 1, &[9, 8]).unwrap();
    assert_eq!(image, vec![1, 9, 8, 4, 5]);
    assert_eq!(write_slice(&mut image, 4, &[7, 7]), Err(FsError::Io));
    assert_eq!(image, vec![1, 9, 8, 4, 5]);
    write_u32(&mut image, 1, 0x0A0B_0C0D).unwrap();
    assert_eq!(image, vec![1, 0x0D, 0x0C, 0x0B, 0x0A]);
    assert_eq!(write_u32(&mut image, 2, 1), Err(FsError::Io));
    assert_eq!(image, vec![1, 0x0D, 0x0C, 0x0B, 0x0A]);
}

#[test]
fn write_to_an_empty_chain_allocates_what_the_data_needs() {
    let mut image = fresh_image();
    let fs = FAT32::new(&image).unwrap();
    let mut chain = vec![];
    let data = pattern(1000);
    fs.write_file_data(&mut image, &mut chain, 0, &data).unwrap();
    assert_eq!(chain, vec![3, 4]);
    assert_eq!(fs.get_next_cluster(&image, 3), Ok(4));
    assert_eq!(fs.get_next_cluster(&image, 4), Ok(0x0FFF_FFF8));
    assert_eq!(fs.get_cluster_chain(&image, 3), Ok(vec![3, 4]));
    let at = fs.cluster_to_offset(3) as usize;
    assert_eq!(&image[at..at + 1000], &data[..]);
}

#[test]
fn what_is_written_is_read_back() {
    let mut image = fresh_image();
    let fs = FAT32::new(&image).unwrap();
    let mut chain = vec![];
    let data = pattern(700);
    fs.write_file_data(&mut image, &mut chain, 0, &data).unwrap();
    assert_eq!(fs.read_file_data(&image, &chain, 0, 700), Ok(data));
}

#[test]
fn write_across_a_cluster_boundary_reads_back_in_one_piece() {
    let mut image = fresh_image();
    let fs = FAT32::new(&image).unwrap();
    let mut chain = vec![];
    fs.write_file_data(&mut image, &mut chain, 0, &vec![0u8; 512]).unwrap();
    fs.set_next_cluster(&mut image, 4, 0x0FFF_FFF8).unwrap();
    let data = pattern(40);
    fs.write_file_data(&mut image, &mut chain, 500, &data).unwrap();
    assert_eq!(chain, vec![3, 5]);
    assert_eq!(fs.read_file_data(&image, &chain, 500, 40), Ok(data.clone()));
    let first = fs.cluster_to_offset(3) as usize;
    let second = fs.cluster_to_offset(5) as usize;
    assert_eq!(&image[first + 500..first + 512], &data[..12]);
    assert_eq!(&image[second..second + 28], &data[12..]);
}

#[test]
fn write_into_a_long_enough_chain_allocates_nothing() {
    let mut image = fresh_image();
    let fs = FAT32::new(&image).unwrap();
    let mut chain = vec![];
    fs.write_file_data(&mut image, &mut chain, 0, &pattern(1024)).unwrap();
    let fat_before = image[32 * 512..32768].to_vec();
    fs.write_file_data(&mut image, &mut chain, 100, b"xyz").unwrap();
    assert_eq!(chain, vec![3, 4]);
    assert_eq!(&image[32 * 512..32768], &fat_before[..]);
    assert_eq!(fs.read_file_data(&image, &chain, 99, 5), Ok(vec![pattern(100)[99], b'x', b'y', b'z', pattern(104)[103]]));
}

#[test]
fn read_past_the_end_of_the_chain_is_short() {
    let mut image = fresh_image();
    let fs = FAT32::new(&image).unwrap();
    let mut chain = vec![];
    let data = pattern(512);
    fs.write_file_data(&mut image, &mut chain, 0, &data).unwrap();
    assert_eq!(fs.read_file_data(&image, &chain, 500, 100), Ok(data[500..].to_vec()));
    assert_eq!(fs.read_file_data(&image, &chain, 0, u32::MAX), Ok(data));
    assert_eq!(fs.read_file_data(&image, &chain, 512, 10), Ok(vec![]));
    assert_eq!(fs.read_file_data(&image, &chain, 9999, 10), Ok(vec![]));
    assert_eq!(fs.read_file_data(&image, &[], 0, 10), Ok(vec![]));
}

#[test]
fn read_of_nothing_is_empty() {
    let image = fresh_image();
    let fs = FAT32::new(&image).unwrap();
    assert_eq!(fs.read_file_data(&image, &[3, 4], 10, 0), Ok(vec![]));
}

#[test]
fn read_through_a_cluster_outside_the_image_is_an_io_error() {
    let image = fresh_image();
    let fs = FAT32::new(&image).unwrap();
    assert_eq!(fs.read_file_data(&image, &[3, 5000], 0, 600), Err(FsError::Io));
    assert_eq!(fs.read_file_data(&image, &[3, 5000], 0, 512).map(|d| d.len()), Ok(512));
    assert_eq!(fs.read_file_data(&image, &[1], 0, 1), Err(FsError::Io));
}

#[test]
fn write_on_a_full_volume_is_no_space() {
    let mut image = fresh_image();
    let fs = FAT32::new(&image).unwrap();
    for c in 3..fs.total_clusters {
        fs.set_next_cluster(&mut image, c, 0x0FFF_FFF8).unwrap();
    }
    let mut chain = vec![];
    assert_eq!(fs.write_file_data(&mut image, &mut chain, 0, b"x"), Err(FsError::NoSpace));
    assert_eq!(chain, vec![]);
}

#[test]
fn new_cluster_is_marked_before_the_tail_is_linked() {
    let mut image = fresh_image();
    let fs = FAT32::new(&image).unwrap();
    let mut chain = vec![];
    fs.write_file_data(&mut image, &mut chain, 0, b"a").unwrap();
    assert_eq!(chain, vec![3]);
    fs.write_file_data(&mut image, &mut chain, 512, b"b").unwrap();
    assert_eq!(chain, vec![3, 4]);
    assert_eq!(fs.get_next_cluster(&image, 3), Ok(4));
    assert_eq!(fs.get_next_cluster(&image, 4), Ok(0x0FFF_FFF8));
}

#[test]
fn write_far_behind_the_end_grows_the_chain_up_to_the_offset() {
    let mut image = fresh_image();
    let fs = FAT32::new(&image).unwrap();
    let mut chain = vec![];
    fs.write_file_data(&mut image, &mut chain, 1500, b"zz").unwrap();
    assert_eq!(chain, vec![3, 4, 5]);
    assert_eq!(fs.read_file_data(&image, &chain, 1500, 2), Ok(b"zz".to_vec()));
}
