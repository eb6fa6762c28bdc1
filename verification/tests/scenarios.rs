use filesys::commands::{cd, close, creat, ls, lseek, mkdir, open, read, rename, rm, size};
use filesys::error::FsError;
use filesys::fat32::FAT32;
use filesys::open_files::OpenFiles;

fn put_u16(image: &mut Vec<u8>, pos: usize, v: u16) {
    image[pos..pos + 2].copy_from_slice(&v.to_le_bytes());
}

fn put_u32(image: &mut Vec<u8>, pos: usize, v: u32) {
    image[pos..pos + 4].copy_from_slice(&v.to_le_bytes());
}

/// A fresh 1 MiB volume: 512-byte sectors, one sector per cluster, 32
/// reserved sectors, two FATs of 16 sectors, the root directory in cluster 2.
fn fresh_image() -> Vec<u8> {
    let mut image = vec![0u8; 1024 * 1024];
    put_u16(&mut image, 11, 512);
    image[13] = 1;
    put_u16(&mut image, 14, 32);
    image[16] = 2;
    put_u32(&mut image, 32, 2048);
    put_u32(&mut image, 36, 16);
    put_u32(&mut image, 44, 2);
    put_u16(&mut image, 510, 0xAA55);
    let fat = 32 * 512;
    put_u32(&mut image, fat, 0x0FFF_FFF8);
    put_u32(&mut image, fat + 4, 0x0FFF_FFFF);
    put_u32(&mut image, fat + 8, 0x0FFF_FFF8);
    image
}

fn free_clusters(image: &[u8], fs: &FAT32) -> Vec<u32> {
    let mut free = Vec::new();
    for c in 2..fs.total_clusters {
        if fs.get_next_cluster(image, c).unwrap() == 0 {
            free.push(c);
        }
    }
    free
}

#[test]
fn new_directory_lists_dot_and_dotdot() {
    let mut image = fresh_image();
    let fs = FAT32::new(&image).unwrap();
    let mut current = fs.boot_sector.root_cluster;
    mkdir(&mut image, &fs, current, "foo").unwrap();
    cd(&image, &fs, &mut current, "foo").unwrap();
    assert_ne!(current, fs.boot_sector.root_cluster);
    let names = ls(&image, &fs, current).unwrap();
    assert_eq!(names, vec![".".to_string(), "..".to_string()]);
    cd(&image, &fs, &mut current, "..").unwrap();
    assert_eq!(current, fs.boot_sector.root_cluster);
}

#[test]
fn written_size_is_recorded() {
    let mut image = fresh_image();
    let fs = FAT32::new(&image).unwrap();
    let current = fs.boot_sector.root_cluster;
    let mut table = OpenFiles::new();
    creat(&mut image, &fs, current, "hello.txt").unwrap();
    open(&image, &fs, current, "hello.txt", "-w", &mut table).unwrap();
    filesys::commands::write(&mut image, &fs, current, "hello.txt", "\"HELLO\"", &mut table).unwrap();
    close("hello.txt", &mut table).unwrap();
    assert_eq!(size(&image, &fs, current, "hello.txt"), Ok(5));
}

#[test]
fn written_text_reads_back() {
    let mut image = fresh_image();
    let fs = FAT32::new(&image).unwrap();
    let current = fs.boot_sector.root_cluster;
    let mut table = OpenFiles::new();
    creat(&mut image, &fs, current, "a.txt").unwrap();
    open(&image, &fs, current, "a.txt", "-rw", &mut table).unwrap();
    filesys::commands::write(&mut image, &fs, current, "a.txt", "\"abcdefghijklmnopqrstuvwxyz\"", &mut table)
        .unwrap();
    lseek("a.txt", "0", &mut table).unwrap();
    let data = read(&image, &fs, "a.txt", "26", &mut table).unwrap();
    assert_eq!(data, b"abcdefghijklmnopqrstuvwxyz".to_vec());
}

#[test]
fn creat_after_mkdir_of_same_name_is_refused() {
    let mut image = fresh_image();
    let fs = FAT32::new(&image).unwrap();
    let current = fs.boot_sector.root_cluster;
    mkdir(&mut image, &fs, current, "d").unwrap();
    assert_eq!(creat(&mut image, &fs, current, "d"), Err(FsError::AlreadyExists));
    assert_eq!(ls(&image, &fs, current).unwrap(), vec!["D".to_string()]);
}

#[test]
fn creat_rm_creat_keeps_free_clusters() {
    let mut image = fresh_image();
    let fs = FAT32::new(&image).unwrap();
    let current = fs.boot_sector.root_cluster;
    let table = OpenFiles::new();
    let free_before = free_clusters(&image, &fs);
    creat(&mut image, &fs, current, "x").unwrap();
    rm(&mut image, &fs, current, "x", &table).unwrap();
    creat(&mut image, &fs, current, "x").unwrap();
    assert_eq!(size(&image, &fs, current, "x"), Ok(0));
    assert_eq!(free_clusters(&image, &fs), free_before);
}

#[test]
fn rename_of_open_file_is_refused_until_closed() {
    let mut image = fresh_image();
    let fs = FAT32::new(&image).unwrap();
    let current = fs.boot_sector.root_cluster;
    let mut table = OpenFiles::new();
    creat(&mut image, &fs, current, "f").unwrap();
    open(&image, &fs, current, "f", "-w", &mut table).unwrap();
    filesys::commands::write(&mut image, &fs, current, "f", "\"AAA\"", &mut table).unwrap();
    assert_eq!(rename(&mut image, &fs, current, "f", "g", &table), Err(FsError::FileOpen));
    close("f", &mut table).unwrap();
    rename(&mut image, &fs, current, "f", "g", &table).unwrap();
    let names = ls(&image, &fs, current).unwrap();
    assert!(names.contains(&"G".to_string()));
    assert!(!names.contains(&"F".to_string()));
}
