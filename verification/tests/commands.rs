use filesys::commands::{
    all_dot_entries, cd, close, creat, find_named, find_of_kind, ls, lseek, lsof, mkdir, open,
    read, rename, rm, rmdir, size,
};
use filesys::directory::DirectoryEntry;
use filesys::error::FsError;
use filesys::fat32::FAT32;
use filesys::names::{dot_entry_name, stored_name};
use filesys::open_files::{FileMode, OpenFiles};

fn put_u16(image: &mut Vec<u8>, pos: usize, v: u16) {
    image[pos..pos + 2].copy_from_slice(&v.to_le_bytes());
}

fn put_u32(image: &mut Vec<u8>, pos: usize, v: u32) {
    image[pos..pos + 4].copy_from_slice(&v.to_le_bytes());
}

fn fresh_image() -> Vec<u8> {
    let mut image = vec![0u8; 1024 * 1024];
    put_u16(&mut image, 11, 512);
    image[13] = 1;
    put_u16(&mut image, 14, 32);
    image[16] = 2;
    put_u32(&mut image, 32, 2048);
    put_u32(&mut image, 36, 16);
    put_u32(&mut image, 44, 2);
    put_u16(&mut image, 510, 0xAA55);
    let fat = 32 * 512;
    put_u32(&mut image, fat, 0x0FFF_FFF8);
    put_u32(&mut image, fat + 4, 0x0FFF_FFFF);
    put_u32(&mut image, fat + 8, 0x0FFF_FFF8);
    image
}

fn do_write(
    image: &mut Vec<u8>,
    fs: &FAT32,
    current: u32,
    name: &str,
    text: &str,
    table: &mut OpenFiles,
) -> Result<(), FsError> {
    filesys::commands::write(image, fs, current, name, text, table)
}

fn entry(name: &str, attr: u8, first_cluster: u32, file_size: u32) -> DirectoryEntry {
    DirectoryEntry { name: stored_name(name), attr, first_cluster, file_size }
}

fn dot_entry(dots: usize, first_cluster: u32) -> DirectoryEntry {
    DirectoryEntry { name: dot_entry_name(dots), attr: 0x10, first_cluster, file_size: 0 }
}

#[test]
fn listing_helpers_find_entries_by_name_and_kind() {
    let entries = vec![entry("a", 0x20, 0, 0), entry("b", 0x10, 3, 0), entry("b", 0x20, 0, 7)];
    assert_eq!(find_named(&entries, &stored_name("a")), 0);
    assert_eq!(find_named(&entries, &stored_name("B")), 1);
    assert_eq!(find_named(&entries, &stored_name("c")), 3);
    assert_eq!(find_of_kind(&entries, &stored_name("b"), false), Ok(entries[2]));
    assert_eq!(find_of_kind(&entries, &stored_name("b"), true), Ok(entries[1]));
    assert_eq!(find_of_kind(&entries, &stored_name("a"), true), Err(FsError::NotDirectory));
    assert_eq!(find_of_kind(&entries[..2].to_vec(), &stored_name("b"), false), Err(FsError::IsDirectory));
    assert_eq!(find_of_kind(&entries, &stored_name("c"), false), Err(FsError::NotFound));
    assert!(all_dot_entries(&vec![dot_entry(1, 3), dot_entry(2, 2)]));
    assert!(all_dot_entries(&vec![]));
    assert!(!all_dot_entries(&vec![dot_entry(1, 3), entry("x", 0x20, 0, 0)]));
}

#[test]
fn names_are_matched_in_their_stored_form() {
    let mut image = fresh_image();
    let fs = FAT32::new(&image).unwrap();
    let mut table = OpenFiles::new();
    let mut current = 2;
    mkdir(&mut image, &fs, current, "foo").unwrap();
    creat(&mut image, &fs, current, "Hello.Txt").unwrap();
    assert_eq!(creat(&mut image, &fs, current, "HELLO.TXT"), Err(FsError::AlreadyExists));
    assert_eq!(mkdir(&mut image, &fs, current, "FOO"), Err(FsError::AlreadyExists));
    assert_eq!(size(&image, &fs, current, "hello.txt"), Ok(0));
    open(&image, &fs, current, "hello.TXT", "-r", &mut table).unwrap();
    assert_eq!(lsof(&table)[0].filename, "HELLO   TXT");
    assert_eq!(close("HELLO.txt", &mut table), Ok(()));
    cd(&image, &fs, &mut current, "Foo").unwrap();
    assert_eq!(current, 3);
}

#[test]
fn ls_shows_names_in_slot_order() {
    let mut image = fresh_image();
    let fs = FAT32::new(&image).unwrap();
    creat(&mut image, &fs, 2, "b.txt").unwrap();
    mkdir(&mut image, &fs, 2, "a").unwrap();
    creat(&mut image, &fs, 2, "c").unwrap();
    assert_eq!(ls(&image, &fs, 2), Ok(vec!["B       TXT".to_string(), "A".to_string(), "C".to_string()]));
    assert_eq!(ls(&image, &fs, 1), Err(FsError::Io));
}

#[test]
fn cd_moves_between_directories() {
    let mut image = fresh_image();
    let fs = FAT32::new(&image).unwrap();
    let mut current = 2;
    mkdir(&mut image, &fs, current, "a").unwrap();
    cd(&image, &fs, &mut current, "a").unwrap();
    assert_eq!(current, 3);
    mkdir(&mut image, &fs, current, "b").unwrap();
    cd(&image, &fs, &mut current, "b").unwrap();
    assert_eq!(current, 4);
    cd(&image, &fs, &mut current, ".").unwrap();
    assert_eq!(current, 4);
    cd(&image, &fs, &mut current, "..").unwrap();
    assert_eq!(current, 3);
    cd(&image, &fs, &mut current, "..").unwrap();
    assert_eq!(current, 2);
}

#[test]
fn cd_refuses_what_is_no_directory() {
    let mut image = fresh_image();
    let fs = FAT32::new(&image).unwrap();
    let mut current = 2;
    creat(&mut image, &fs, current, "f").unwrap();
    assert_eq!(cd(&image, &fs, &mut current, "f"), Err(FsError::NotDirectory));
    assert_eq!(cd(&image, &fs, &mut current, "nope"), Err(FsError::NotFound));
    assert_eq!(cd(&image, &fs, &mut current, ".."), Err(FsError::NotFound));
    assert_eq!(current, 2);
}

#[test]
fn open_checks_come_in_order() {
    let mut image = fresh_image();
    let fs = FAT32::new(&image).unwrap();
    let mut table = OpenFiles::new();
    creat(&mut image, &fs, 2, "f").unwrap();
    mkdir(&mut image, &fs, 2, "d").unwrap();
    assert_eq!(open(&image, &fs, 2, "f", "-x", &mut table), Err(FsError::BadMode));
    assert_eq!(open(&image, &fs, 2, "nope", "-r", &mut table), Err(FsError::NotFound));
    assert_eq!(open(&image, &fs, 2, "d", "-r", &mut table), Err(FsError::IsDirectory));
    assert_eq!(open(&image, &fs, 2, "f", "-r", &mut table), Ok(()));
    assert_eq!(open(&image, &fs, 2, "f", "-x", &mut table), Err(FsError::Duplicate));
    assert_eq!(open(&image, &fs, 2, "F", "-w", &mut table), Err(FsError::Duplicate));
    assert_eq!(lsof(&table).len(), 1);
    assert_eq!(lsof(&table)[0].mode, FileMode::ReadOnly);
    assert_eq!(lsof(&table)[0].offset, 0);
}

#[test]
fn open_records_first_cluster_and_size() {
    let mut image = fresh_image();
    let fs = FAT32::new(&image).unwrap();
    let mut table = OpenFiles::new();
    creat(&mut image, &fs, 2, "f").unwrap();
    open(&image, &fs, 2, "f", "-w", &mut table).unwrap();
    do_write(&mut image, &fs, 2, "f", "hello", &mut table).unwrap();
    close("f", &mut table).unwrap();
    open(&image, &fs, 2, "f", "-rw", &mut table).unwrap();
    let list = lsof(&table);
    assert_eq!(list[0].first_cluster, 3);
    assert_eq!(list[0].file_size, 5);
    assert_eq!(list[0].offset, 0);
    assert_eq!(list[0].mode, FileMode::ReadWrite);
}

#[test]
fn eleventh_open_is_refused() {
    let mut image = fresh_image();
    let fs = FAT32::new(&image).unwrap();
    let mut table = OpenFiles::new();
    for i in 0..11 {
        creat(&mut image, &fs, 2, &format!("f{}", i)).unwrap();
    }
    for i in 0..10 {
        open(&image, &fs, 2, &format!("f{}", i), "-r", &mut table).unwrap();
    }
    assert_eq!(open(&image, &fs, 2, "f10", "-r", &mut table), Err(FsError::Capacity));
}

#[test]
fn close_of_what_is_not_open_is_refused() {
    let mut table = OpenFiles::new();
    assert_eq!(close("f", &mut table), Err(FsError::NotOpen));
}

#[test]
fn size_refuses_directories_and_missing_files() {
    let mut image = fresh_image();
    let fs = FAT32::new(&image).unwrap();
    mkdir(&mut image, &fs, 2, "d").unwrap();
    assert_eq!(size(&image, &fs, 2, "d"), Err(FsError::IsDirectory));
    assert_eq!(size(&image, &fs, 2, "nope"), Err(FsError::NotFound));
}

#[test]
fn lseek_accepts_the_size_and_refuses_what_lies_beyond() {
    let mut image = fresh_image();
    let fs = FAT32::new(&image).unwrap();
    let mut table = OpenFiles::new();
    creat(&mut image, &fs, 2, "f").unwrap();
    open(&image, &fs, 2, "f", "-rw", &mut table).unwrap();
    do_write(&mut image, &fs, 2, "f", "0123456789", &mut table).unwrap();
    assert_eq!(lseek("f", "10", &mut table), Ok(()));
    assert_eq!(lsof(&table)[0].offset, 10);
    assert_eq!(lseek("f", "11", &mut table), Err(FsError::OutOfRange));
    assert_eq!(lsof(&table)[0].offset, 10);
    assert_eq!(lseek("f", "4", &mut table), Ok(()));
    assert_eq!(lsof(&table)[0].offset, 4);
    assert_eq!(lseek("f", "0", &mut table), Ok(()));
    assert_eq!(lsof(&table)[0].offset, 0);
    assert_eq!(lseek("f", "x", &mut table), Err(FsError::OutOfRange));
    assert_eq!(lseek("f", "", &mut table), Err(FsError::OutOfRange));
    assert_eq!(lseek("g", "0", &mut table), Err(FsError::NotOpen));
    assert_eq!(lseek("g", "x", &mut table), Err(FsError::OutOfRange));
}

#[test]
fn read_moves_the_offset_behind_what_it_returns() {
    let mut image = fresh_image();
    let fs = FAT32::new(&image).unwrap();
    let mut table = OpenFiles::new();
    creat(&mut image, &fs, 2, "f").unwrap();
    open(&image, &fs, 2, "f", "-rw", &mut table).unwrap();
    do_write(&mut image, &fs, 2, "f", "0123456789", &mut table).unwrap();
    lseek("f", "2", &mut table).unwrap();
    assert_eq!(read(&image, &fs, "f", "3", &mut table), Ok(b"234".to_vec()));
    assert_eq!(lsof(&table)[0].offset, 5);
    assert_eq!(read(&image, &fs, "f", "2", &mut table), Ok(b"56".to_vec()));
    assert_eq!(lsof(&table)[0].offset, 7);
}

#[test]
fn read_larger_than_what_is_left_is_short_and_no_error() {
    let mut image = fresh_image();
    let fs = FAT32::new(&image).unwrap();
    let mut table = OpenFiles::new();
    creat(&mut image, &fs, 2, "f").unwrap();
    open(&image, &fs, 2, "f", "-rw", &mut table).unwrap();
    do_write(&mut image, &fs, 2, "f", "0123456789", &mut table).unwrap();
    lseek("f", "6", &mut table).unwrap();
    let data = read(&image, &fs, "f", "100000", &mut table).unwrap();
    assert_eq!(&data[..4], b"6789");
    assert_eq!(data.len(), 512 - 6);
    assert_eq!(lsof(&table)[0].offset, 512);
    assert_eq!(read(&image, &fs, "f", "5", &mut table), Ok(vec![]));
}

#[test]
fn read_of_an_empty_file_returns_nothing() {
    let mut image = fresh_image();
    let fs = FAT32::new(&image).unwrap();
    let mut table = OpenFiles::new();
    creat(&mut image, &fs, 2, "f").unwrap();
    open(&image, &fs, 2, "f", "-r", &mut table).unwrap();
    assert_eq!(read(&image, &fs, "f", "10", &mut table), Ok(vec![]));
    assert_eq!(lsof(&table)[0].offset, 0);
}

#[test]
fn read_and_write_respect_the_mode() {
    let mut image = fresh_image();
    let fs = FAT32::new(&image).unwrap();
    let mut table = OpenFiles::new();
    creat(&mut image, &fs, 2, "r").unwrap();
    creat(&mut image, &fs, 2, "w").unwrap();
    open(&image, &fs, 2, "r", "-r", &mut table).unwrap();
    open(&image, &fs, 2, "w", "-w", &mut table).unwrap();
    let before = image.clone();
    assert_eq!(do_write(&mut image, &fs, 2, "r", "x", &mut table), Err(FsError::ModeConflict));
    assert_eq!(image, before);
    assert_eq!(read(&image, &fs, "w", "1", &mut table), Err(FsError::ModeConflict));
    assert_eq!(read(&image, &fs, "r", "1", &mut table), Ok(vec![]));
    assert_eq!(do_write(&mut image, &fs, 2, "w", "x", &mut table), Ok(()));
}

#[test]
fn read_and_write_need_an_open_file_and_a_number() {
    let mut image = fresh_image();
    let fs = FAT32::new(&image).unwrap();
    let mut table = OpenFiles::new();
    creat(&mut image, &fs, 2, "f").unwrap();
    assert_eq!(read(&image, &fs, "f", "1", &mut table), Err(FsError::NotOpen));
    assert_eq!(do_write(&mut image, &fs, 2, "f", "x", &mut table), Err(FsError::NotOpen));
    open(&image, &fs, 2, "f", "-rw", &mut table).unwrap();
    assert_eq!(read(&image, &fs, "f", "many", &mut table), Err(FsError::OutOfRange));
    assert_eq!(read(&image, &fs, "f", "-1", &mut table), Err(FsError::OutOfRange));
}

#[test]
fn write_strips_one_pair_of_quotation_marks() {
    let mut image = fresh_image();
    let fs = FAT32::new(&image).unwrap();
    let mut table = OpenFiles::new();
    creat(&mut image, &fs, 2, "f").unwrap();
    open(&image, &fs, 2, "f", "-rw", &mut table).unwrap();
    do_write(&mut image, &fs, 2, "f", "\"\"hi there\"\"", &mut table).unwrap();
    lseek("f", "0", &mut table).unwrap();
    assert_eq!(read(&image, &fs, "f", "10", &mut table), Ok(b"\"hi there\"".to_vec()));
}

#[test]
fn write_appends_at_the_offset_and_grows_the_size() {
    let mut image = fresh_image();
    let fs = FAT32::new(&image).unwrap();
    let mut table = OpenFiles::new();
    creat(&mut image, &fs, 2, "f").unwrap();
    open(&image, &fs, 2, "f", "-rw", &mut table).unwrap();
    do_write(&mut image, &fs, 2, "f", "abc", &mut table).unwrap();
    do_write(&mut image, &fs, 2, "f", "def", &mut table).unwrap();
    assert_eq!(size(&image, &fs, 2, "f"), Ok(6));
    lseek("f", "1", &mut table).unwrap();
    do_write(&mut image, &fs, 2, "f", "XY", &mut table).unwrap();
    assert_eq!(size(&image, &fs, 2, "f"), Ok(6));
    assert_eq!(lsof(&table)[0].offset, 3);
    assert_eq!(lsof(&table)[0].file_size, 6);
    lseek("f", "0", &mut table).unwrap();
    assert_eq!(read(&image, &fs, "f", "6", &mut table), Ok(b"aXYdef".to_vec()));
}

#[test]
fn first_write_links_the_chain_into_the_entry() {
    let mut image = fresh_image();
    let fs = FAT32::new(&image).unwrap();
    let mut table = OpenFiles::new();
    creat(&mut image, &fs, 2, "empty").unwrap();
    creat(&mut image, &fs, 2, "f").unwrap();
    open(&image, &fs, 2, "f", "-w", &mut table).unwrap();
    do_write(&mut image, &fs, 2, "f", "data", &mut table).unwrap();
    let entries = fs.read_directory_entries(&image, 2).unwrap();
    assert_eq!(entries[0], entry("empty", 0x20, 0, 0));
    assert_eq!(entries[1], entry("f", 0x20, 3, 4));
    assert_eq!(lsof(&table)[0].first_cluster, 3);
}

#[test]
fn write_command_on_a_full_volume_is_no_space() {
    let mut image = fresh_image();
    let fs = FAT32::new(&image).unwrap();
    let mut table = OpenFiles::new();
    creat(&mut image, &fs, 2, "f").unwrap();
    open(&image, &fs, 2, "f", "-w", &mut table).unwrap();
    for c in 3..fs.total_clusters {
        fs.set_next_cluster(&mut image, c, 0x0FFF_FFF8).unwrap();
    }
    assert_eq!(do_write(&mut image, &fs, 2, "f", "x", &mut table), Err(FsError::NoSpace));
    assert_eq!(size(&image, &fs, 2, "f"), Ok(0));
    assert_eq!(lsof(&table)[0].offset, 0);
}

#[test]
fn rename_guards_come_in_order() {
    let mut image = fresh_image();
    let fs = FAT32::new(&image).unwrap();
    let mut table = OpenFiles::new();
    creat(&mut image, &fs, 2, "a").unwrap();
    creat(&mut image, &fs, 2, "b").unwrap();
    let before = image.clone();
    assert_eq!(rename(&mut image, &fs, 2, ".", "x", &table), Err(FsError::SpecialName));
    assert_eq!(rename(&mut image, &fs, 2, "..", "x", &table), Err(FsError::SpecialName));
    assert_eq!(rename(&mut image, &fs, 2, "a", ".", &table), Err(FsError::SpecialName));
    assert_eq!(rename(&mut image, &fs, 2, "a", "..", &table), Err(FsError::SpecialName));
    assert_eq!(rename(&mut image, &fs, 2, "a", "b", &table), Err(FsError::AlreadyExists));
    assert_eq!(rename(&mut image, &fs, 2, "nope", "b", &table), Err(FsError::AlreadyExists));
    assert_eq!(rename(&mut image, &fs, 2, "a", "A", &table), Err(FsError::AlreadyExists));
    assert_eq!(rename(&mut image, &fs, 2, "nope", "c", &table), Err(FsError::NotFound));
    open(&image, &fs, 2, "a", "-r", &mut table).unwrap();
    assert_eq!(rename(&mut image, &fs, 2, "a", "c", &table), Err(FsError::FileOpen));
    assert_eq!(image, before);
    assert_eq!(rename(&mut image, &fs, 2, "b", "c", &table), Ok(()));
    assert_eq!(ls(&image, &fs, 2), Ok(vec!["A".to_string(), "C".to_string()]));
}

#[test]
fn rename_works_on_directories() {
    let mut image = fresh_image();
    let fs = FAT32::new(&image).unwrap();
    let table = OpenFiles::new();
    let mut current = 2;
    mkdir(&mut image, &fs, current, "d").unwrap();
    rename(&mut image, &fs, current, "d", "e", &table).unwrap();
    assert_eq!(cd(&image, &fs, &mut current, "d"), Err(FsError::NotFound));
    assert_eq!(cd(&image, &fs, &mut current, "e"), Ok(()));
    assert_eq!(current, 3);
}

#[test]
fn rm_guards_come_in_order() {
    let mut image = fresh_image();
    let fs = FAT32::new(&image).unwrap();
    let mut table = OpenFiles::new();
    creat(&mut image, &fs, 2, "f").unwrap();
    mkdir(&mut image, &fs, 2, "d").unwrap();
    let before = image.clone();
    assert_eq!(rm(&mut image, &fs, 2, "nope", &table), Err(FsError::NotFound));
    assert_eq!(rm(&mut image, &fs, 2, "d", &table), Err(FsError::IsDirectory));
    open(&image, &fs, 2, "f", "-r", &mut table).unwrap();
    assert_eq!(rm(&mut image, &fs, 2, "f", &table), Err(FsError::FileOpen));
    assert_eq!(image, before);
    close("f", &mut table).unwrap();
    assert_eq!(rm(&mut image, &fs, 2, "f", &table), Ok(()));
    assert_eq!(ls(&image, &fs, 2), Ok(vec!["D".to_string()]));
}

#[test]
fn rm_frees_the_clusters_of_the_file() {
    let mut image = fresh_image();
    let fs = FAT32::new(&image).unwrap();
    let mut table = OpenFiles::new();
    creat(&mut image, &fs, 2, "f").unwrap();
    open(&image, &fs, 2, "f", "-w", &mut table).unwrap();
    do_write(&mut image, &fs, 2, "f", &"x".repeat(1200), &mut table).unwrap();
    close("f", &mut table).unwrap();
    assert_eq!(fs.get_cluster_chain(&image, 3), Ok(vec![3, 4, 5]));
    rm(&mut image, &fs, 2, "f", &table).unwrap();
    for c in 3..6 {
        assert_eq!(fs.get_next_cluster(&image, c), Ok(0));
    }
    assert_eq!(fs.get_next_cluster(&image, 2), Ok(0x0FFF_FFF8));
}

#[test]
fn rmdir_guards_come_in_order() {
    let mut image = fresh_image();
    let fs = FAT32::new(&image).unwrap();
    let table = OpenFiles::new();
    creat(&mut image, &fs, 2, "f").unwrap();
    mkdir(&mut image, &fs, 2, "d").unwrap();
    creat(&mut image, &fs, 3, "inside").unwrap();
    let before = image.clone();
    assert_eq!(rmdir(&mut image, &fs, 2, ".", &table), Err(FsError::SpecialName));
    assert_eq!(rmdir(&mut image, &fs, 2, "..", &table), Err(FsError::SpecialName));
    assert_eq!(rmdir(&mut image, &fs, 2, "nope", &table), Err(FsError::NotFound));
    assert_eq!(rmdir(&mut image, &fs, 2, "f", &table), Err(FsError::NotDirectory));
    assert_eq!(rmdir(&mut image, &fs, 2, "d", &table), Err(FsError::NotEmpty));
    assert_eq!(image, before);
    rm(&mut image, &fs, 3, "inside", &table).unwrap();
    assert_eq!(rmdir(&mut image, &fs, 2, "d", &table), Ok(()));
    assert_eq!(ls(&image, &fs, 2), Ok(vec!["F".to_string()]));
    assert_eq!(fs.get_next_cluster(&image, 3), Ok(0));
}

#[test]
fn commands_on_a_directory_outside_the_image_are_io_errors() {
    let mut image = fresh_image();
    let fs = FAT32::new(&image).unwrap();
    let mut table = OpenFiles::new();
    let mut current = 5000;
    assert_eq!(creat(&mut image, &fs, current, "f"), Err(FsError::Io));
    assert_eq!(mkdir(&mut image, &fs, current, "d"), Err(FsError::Io));
    assert_eq!(size(&image, &fs, current, "f"), Err(FsError::Io));
    assert_eq!(open(&image, &fs, current, "f", "-r", &mut table), Err(FsError::Io));
    assert_eq!(rm(&mut image, &fs, current, "f", &table), Err(FsError::Io));
    assert_eq!(rmdir(&mut image, &fs, current, "d", &table), Err(FsError::Io));
    assert_eq!(rename(&mut image, &fs, current, "a", "b", &table), Err(FsError::Io));
    assert_eq!(cd(&image, &fs, &mut current, "d"), Err(FsError::Io));
}

#[test]
fn creat_of_a_dot_stores_a_name_of_spaces() {
    let mut image = fresh_image();
    let fs = FAT32::new(&image).unwrap();
    creat(&mut image, &fs, 2, ".").unwrap();
    assert_eq!(&image[32768..32768 + 11], b"           ");
    assert_eq!(ls(&image, &fs, 2), Ok(vec!["".to_string()]));
    let mut current = 2;
    assert_eq!(cd(&image, &fs, &mut current, ".."), Err(FsError::NotFound));
}

#[test]
fn cd_to_dotdot_follows_the_entry_of_the_directory() {
    let mut image = fresh_image();
    let fs = FAT32::new(&image).unwrap();
    let mut current = 2;
    mkdir(&mut image, &fs, current, "a").unwrap();
    mkdir(&mut image, &fs, 3, "x.").unwrap();
    cd(&image, &fs, &mut current, "a").unwrap();
    assert_eq!(ls(&image, &fs, current), Ok(vec![".".to_string(), "..".to_string(), "X".to_string()]));
    cd(&image, &fs, &mut current, "..").unwrap();
    assert_eq!(current, 2);
}
