use filesys::directory::{DirectoryEntry, Probe};
use filesys::error::FsError;
use filesys::fat32::FAT32;
use filesys::names::{dot_entry_name, stored_name};
use filesys::scan::{bytes_eq, decode_entry, first_cluster_of, slot_is_live, SlotSearch};

fn put_u16(image: &mut Vec<u8>, pos: usize, v: u16) {
    image[pos..pos + 2].copy_from_slice(&v.to_le_bytes());
}

fn put_u32(image: &mut Vec<u8>, pos: usize, v: u32) {
    image[pos..pos + 4].copy_from_slice(&v.to_le_bytes());
}

fn fresh_image() -> Vec<u8> {
    let mut image = vec![0u8; 1024 * 1024];
    put_u16(&mut image, 11, 512);
    image[13] = 1;
    put_u16(&mut image, 14, 32);
    image[16] = 2;
    put_u32(&mut image, 32, 2048);
    put_u32(&mut image, 36, 16);
    put_u32(&mut image, 44, 2);
    put_u16(&mut image, 510, 0xAA55);
    let fat = 32 * 512;
    put_u32(&mut image, fat, 0x0FFF_FFF8);
    put_u32(&mut image, fat + 4, 0x0FFF_FFFF);
    put_u32(&mut image, fat + 8, 0x0FFF_FFF8);
    image
}

const ROOT: usize = 32768;

fn entry(name: &str, attr: u8, first_cluster: u32, file_size: u32) -> DirectoryEntry {
    DirectoryEntry { name: stored_name(name), attr, first_cluster, file_size }
}

fn dot_entry(dots: usize, first_cluster: u32) -> DirectoryEntry {
    DirectoryEntry { name: dot_entry_name(dots), attr: 0x10, first_cluster, file_size: 0 }
}

#[test]
fn fresh_entry_has_the_on_disk_layout() {
    let image = fresh_image();
    let fs = FAT32::new(&image).unwrap();
    let bytes = fs.create_directory_entry("hello.txt", 0x20, 0x0012_3456, 0x0A0B_0C0D);
    let mut expected = [0u8; 32];
    expected[..11].copy_from_slice(b"HELLO   TXT");
    expected[11] = 0x20;
    expected[20] = 0x12;
    expected[21] = 0x00;
    expected[26] = 0x56;
    expected[27] = 0x34;
    expected[28..32].copy_from_slice(&[0x0D, 0x0C, 0x0B, 0x0A]);
    assert_eq!(bytes, expected);
}

#[test]
fn slot_is_decoded_into_its_fields() {
    let image = fresh_image();
    let fs = FAT32::new(&image).unwrap();
    let bytes = fs.create_directory_entry("a.b", 0x10, 0xABCD_1234, 77);
    assert_eq!(decode_entry(&bytes), entry("a.b", 0x10, 0xABCD_1234, 77));
    assert_eq!(first_cluster_of(&bytes), 0xABCD_1234);
    assert!(slot_is_live(&bytes));
}

#[test]
fn unused_deleted_and_long_name_slots_are_not_live() {
    let mut slot = [0x41u8; 32];
    slot[11] = 0x20;
    assert!(slot_is_live(&slot));
    slot[0] = 0x00;
    assert!(!slot_is_live(&slot));
    slot[0] = 0xE5;
    assert!(!slot_is_live(&slot));
    slot[0] = 0x41;
    slot[11] = 0x0F;
    assert!(!slot_is_live(&slot));
}

#[test]
fn entry_kind_follows_the_directory_bit() {
    assert!(entry("d", 0x10, 3, 0).is_directory());
    assert!(!entry("d", 0x10, 3, 0).is_file());
    assert!(entry("f", 0x20, 0, 0).is_file());
    assert!(!entry("f", 0x20, 0, 0).is_directory());
    assert!(entry("x", 0x31, 0, 0).is_directory());
    assert!(entry("x", 0x00, 0, 0).is_file());
}

#[test]
fn empty_directory_lists_nothing() {
    let image = fresh_image();
    let fs = FAT32::new(&image).unwrap();
    assert_eq!(fs.read_directory_entries(&image, 2), Ok(vec![]));
}

#[test]
fn listing_passes_over_deleted_and_long_name_slots() {
    let mut image = fresh_image();
    let fs = FAT32::new(&image).unwrap();
    let a = fs.create_directory_entry("a", 0x20, 0, 1);
    let mut long = fs.create_directory_entry("long", 0x0F, 0, 0);
    long[0] = 0x41;
    let mut gone = fs.create_directory_entry("gone", 0x20, 0, 0);
    gone[0] = 0xE5;
    let b = fs.create_directory_entry("b", 0x10, 9, 0);
    image[ROOT..ROOT + 32].copy_from_slice(&a);
    image[ROOT + 32..ROOT + 64].copy_from_slice(&long);
    image[ROOT + 64..ROOT + 96].copy_from_slice(&gone);
    image[ROOT + 96..ROOT + 128].copy_from_slice(&b);
    assert_eq!(
        fs.read_directory_entries(&image, 2),
        Ok(vec![entry("a", 0x20, 0, 1), entry("b", 0x10, 9, 0)])
    );
}

#[test]
fn listing_stops_at_the_first_unused_slot() {
    let mut image = fresh_image();
    let fs = FAT32::new(&image).unwrap();
    let a = fs.create_directory_entry("a", 0x20, 0, 0);
    let b = fs.create_directory_entry("b", 0x20, 0, 0);
    image[ROOT..ROOT + 32].copy_from_slice(&a);
    image[ROOT + 64..ROOT + 96].copy_from_slice(&b);
    assert_eq!(fs.read_directory_entries(&image, 2), Ok(vec![entry("a", 0x20, 0, 0)]));
}

#[test]
fn listing_follows_the_chain_of_the_directory() {
    let mut image = fresh_image();
    let fs = FAT32::new(&image).unwrap();
    for i in 0..16 {
        let e = fs.create_directory_entry(&format!("f{}", i), 0x20, 0, i);
        image[ROOT + 32 * i as usize..ROOT + 32 * (i as usize + 1)].copy_from_slice(&e);
    }
    fs.set_next_cluster(&mut image, 2, 7).unwrap();
    fs.set_next_cluster(&mut image, 7, 0x0FFF_FFFF).unwrap();
    let last = fs.create_directory_entry("last", 0x20, 0, 99);
    let at = fs.cluster_to_offset(7) as usize;
    image[at..at + 32].copy_from_slice(&last);
    let listed = fs.read_directory_entries(&image, 2).unwrap();
    assert_eq!(listed.len(), 17);
    assert_eq!(listed[15], entry("f15", 0x20, 0, 15));
    assert_eq!(listed[16], entry("last", 0x20, 0, 99));
}

#[test]
fn full_directory_without_terminator_ends_with_its_chain() {
    let mut image = fresh_image();
    let fs = FAT32::new(&image).unwrap();
    for i in 0..16 {
        let e = fs.create_directory_entry(&format!("f{}", i), 0x20, 0, 0);
        image[ROOT + 32 * i..ROOT + 32 * (i + 1)].copy_from_slice(&e);
    }
    assert_eq!(fs.read_directory_entries(&image, 2).unwrap().len(), 16);
}

#[test]
fn listing_a_cluster_below_two_is_an_io_error() {
    let image = fresh_image();
    let fs = FAT32::new(&image).unwrap();
    assert_eq!(fs.read_directory_entries(&image, 0), Err(FsError::Io));
    assert_eq!(fs.read_directory_entries(&image, 1), Err(FsError::Io));
}

#[test]
fn listing_outside_the_image_is_an_io_error() {
    let image = fresh_image();
    let fs = FAT32::new(&image).unwrap();
    assert_eq!(fs.read_directory_entries(&image, 5000), Err(FsError::Io));
}

#[test]
fn listing_a_chain_that_breaks_off_is_an_io_error() {
    let mut image = fresh_image();
    let fs = FAT32::new(&image).unwrap();
    for i in 0..16 {
        let e = fs.create_directory_entry(&format!("f{}", i), 0x20, 0, 0);
        image[ROOT + 32 * i..ROOT + 32 * (i + 1)].copy_from_slice(&e);
    }
    fs.set_next_cluster(&mut image, 2, 0).unwrap();
    assert_eq!(fs.read_directory_entries(&image, 2), Err(FsError::Io));
}

#[test]
fn search_finds_the_slot_or_the_end_of_the_chain() {
    let mut image = fresh_image();
    let fs = FAT32::new(&image).unwrap();
    fs.create_file(&mut image, 2, "a").unwrap();
    fs.create_file(&mut image, 2, "b").unwrap();
    assert_eq!(
        fs.find_slot(&image, 2, Probe::Name(stored_name("b"))),
        Ok(SlotSearch::Hit(ROOT as u64 + 32))
    );
    assert_eq!(fs.find_slot(&image, 2, Probe::Vacant), Ok(SlotSearch::Hit(ROOT as u64 + 64)));
    assert_eq!(fs.find_slot(&image, 2, Probe::End), Ok(SlotSearch::Hit(ROOT as u64 + 64)));
    assert_eq!(fs.find_slot(&image, 2, Probe::FirstCluster(0)), Ok(SlotSearch::Hit(ROOT as u64)));
    assert_eq!(
        fs.locate_slot(&image, 2, Probe::Name(stored_name("c"))),
        Err(FsError::NotFound)
    );
    for i in 2..16 {
        fs.create_file(&mut image, 2, &format!("f{}", i)).unwrap();
    }
    assert_eq!(fs.find_slot(&image, 2, Probe::Vacant), Ok(SlotSearch::End(2)));
    assert_eq!(
        fs.locate_slot(&image, 2, Probe::Name(stored_name("c"))),
        Err(FsError::NotFound)
    );
    assert_eq!(fs.find_slot(&image, 1, Probe::Vacant), Err(FsError::Io));
}

#[test]
fn byte_slices_are_compared_by_content() {
    assert!(bytes_eq(b"abc", b"abc"));
    assert!(bytes_eq(b"", b""));
    assert!(!bytes_eq(b"abc", b"abd"));
    assert!(!bytes_eq(b"abc", b"abcd"));
}

#[test]
fn new_entry_goes_into_the_first_unused_slot() {
    let mut image = fresh_image();
    let fs = FAT32::new(&image).unwrap();
    fs.add_directory_entry(&mut image, 2, "one", 0, false).unwrap();
    fs.add_directory_entry(&mut image, 2, "two", 5, true).unwrap();
    assert_eq!(&image[ROOT..ROOT + 11], b"ONE        ");
    assert_eq!(image[ROOT + 11], 0x20);
    assert_eq!(&image[ROOT + 32..ROOT + 43], b"TWO        ");
    assert_eq!(image[ROOT + 32 + 11], 0x10);
    assert_eq!(
        fs.read_directory_entries(&image, 2),
        Ok(vec![entry("one", 0x20, 0, 0), entry("two", 0x10, 5, 0)])
    );
}

#[test]
fn new_entry_prefers_a_deleted_slot_to_the_terminator() {
    let mut image = fresh_image();
    let fs = FAT32::new(&image).unwrap();
    fs.create_file(&mut image, 2, "a").unwrap();
    fs.create_file(&mut image, 2, "b").unwrap();
    fs.create_file(&mut image, 2, "c").unwrap();
    fs.remove_directory_entry(&mut image, 2, &entry("b", 0x20, 0, 0)).unwrap();
    assert_eq!(image[ROOT + 32], 0xE5);
    fs.create_file(&mut image, 2, "d").unwrap();
    assert_eq!(&image[ROOT + 32..ROOT + 43], b"D          ");
    assert_eq!(image[ROOT + 96], 0x00);
    let names: Vec<[u8; 11]> =
        fs.read_directory_entries(&image, 2).unwrap().iter().map(|e| e.name).collect();
    assert_eq!(names, vec![stored_name("a"), stored_name("d"), stored_name("c")]);
}

#[test]
fn full_directory_grows_by_a_zeroed_cluster() {
    let mut image = fresh_image();
    let fs = FAT32::new(&image).unwrap();
    for i in 0..16 {
        fs.create_file(&mut image, 2, &format!("f{}", i)).unwrap();
    }
    assert_eq!(fs.get_next_cluster(&image, 2), Ok(0x0FFF_FFF8));
    let at = fs.cluster_to_offset(3) as usize;
    for b in &mut image[at..at + 512] {
        *b = 0xAA;
    }
    fs.create_file(&mut image, 2, "more").unwrap();
    assert_eq!(fs.get_next_cluster(&image, 2), Ok(3));
    assert_eq!(fs.get_next_cluster(&image, 3), Ok(0x0FFF_FFF8));
    assert_eq!(&image[at..at + 11], b"MORE       ");
    assert!(image[at + 32..at + 512].iter().all(|b| *b == 0));
    assert_eq!(fs.read_directory_entries(&image, 2).unwrap().len(), 17);
}

#[test]
fn full_directory_on_a_full_volume_is_no_space() {
    let mut image = fresh_image();
    let fs = FAT32::new(&image).unwrap();
    for i in 0..16 {
        fs.create_file(&mut image, 2, &format!("f{}", i)).unwrap();
    }
    for c in 3..fs.total_clusters {
        fs.set_next_cluster(&mut image, c, 0x0FFF_FFF8).unwrap();
    }
    let copy = image.clone();
    assert_eq!(fs.create_file(&mut image, 2, "more"), Err(FsError::NoSpace));
    assert_eq!(image, copy);
}

#[test]
fn rename_rewrites_the_eleven_name_bytes_only() {
    let mut image = fresh_image();
    let fs = FAT32::new(&image).unwrap();
    fs.add_directory_entry(&mut image, 2, "old.txt", 9, false).unwrap();
    let before = image.clone();
    fs.update_entry_name(&mut image, 2, &entry("old.txt", 0x20, 9, 0), "new.dat").unwrap();
    assert_eq!(&image[ROOT..ROOT + 11], b"NEW     DAT");
    assert_eq!(&image[ROOT + 11..], &before[ROOT + 11..]);
    assert_eq!(&image[..ROOT], &before[..ROOT]);
}

#[test]
fn rename_of_a_missing_entry_is_not_found() {
    let mut image = fresh_image();
    let fs = FAT32::new(&image).unwrap();
    fs.create_file(&mut image, 2, "a").unwrap();
    let copy = image.clone();
    assert_eq!(
        fs.update_entry_name(&mut image, 2, &entry("b", 0x20, 0, 0), "c"),
        Err(FsError::NotFound)
    );
    assert_eq!(image, copy);
}

#[test]
fn removal_sets_the_first_byte_to_e5() {
    let mut image = fresh_image();
    let fs = FAT32::new(&image).unwrap();
    fs.create_file(&mut image, 2, "a").unwrap();
    let before = image.clone();
    fs.remove_directory_entry(&mut image, 2, &entry("a", 0x20, 0, 0)).unwrap();
    assert_eq!(image[ROOT], 0xE5);
    assert_eq!(&image[ROOT + 1..], &before[ROOT + 1..]);
    assert_eq!(fs.read_directory_entries(&image, 2), Ok(vec![]));
    assert_eq!(
        fs.remove_directory_entry(&mut image, 2, &entry("a", 0x20, 0, 0)),
        Err(FsError::NotFound)
    );
}

#[test]
fn size_is_recorded_in_the_entry_with_that_first_cluster() {
    let mut image = fresh_image();
    let fs = FAT32::new(&image).unwrap();
    fs.add_directory_entry(&mut image, 2, "a", 5, false).unwrap();
    fs.add_directory_entry(&mut image, 2, "b", 6, false).unwrap();
    fs.update_file_size(&mut image, 6, 2, 0x0102_0304).unwrap();
    assert_eq!(&image[ROOT + 32 + 28..ROOT + 64], &[4, 3, 2, 1]);
    assert_eq!(&image[ROOT + 28..ROOT + 32], &[0, 0, 0, 0]);
    assert_eq!(fs.update_file_size(&mut image, 7, 2, 1), Err(FsError::NotFound));
}

#[test]
fn first_cluster_is_recorded_in_two_halves() {
    let mut image = fresh_image();
    let fs = FAT32::new(&image).unwrap();
    fs.create_file(&mut image, 2, "a").unwrap();
    fs.update_first_cluster(&mut image, 2, &stored_name("a"), 0x0012_3456).unwrap();
    assert_eq!(&image[ROOT + 20..ROOT + 22], &[0x12, 0x00]);
    assert_eq!(&image[ROOT + 26..ROOT + 28], &[0x56, 0x34]);
    assert_eq!(fs.read_directory_entries(&image, 2), Ok(vec![entry("a", 0x20, 0x0012_3456, 0)]));
    assert_eq!(
        fs.update_first_cluster(&mut image, 2, &stored_name("b"), 3),
        Err(FsError::NotFound)
    );
}

#[test]
fn new_directory_begins_with_dot_and_dotdot() {
    let mut image = fresh_image();
    let fs = FAT32::new(&image).unwrap();
    fs.create_directory(&mut image, 2, "sub").unwrap();
    assert_eq!(fs.get_next_cluster(&image, 3), Ok(0x0FFF_FFF8));
    assert_eq!(fs.read_directory_entries(&image, 2), Ok(vec![entry("sub", 0x10, 3, 0)]));
    assert_eq!(
        fs.read_directory_entries(&image, 3),
        Ok(vec![dot_entry(1, 3), dot_entry(2, 2)])
    );
    let at = fs.cluster_to_offset(3) as usize;
    assert!(image[at + 64..at + 512].iter().all(|b| *b == 0));
}

#[test]
fn initialising_a_directory_overwrites_the_whole_cluster() {
    let mut image = fresh_image();
    let fs = FAT32::new(&image).unwrap();
    let at = fs.cluster_to_offset(9) as usize;
    for b in &mut image[at..at + 512] {
        *b = 0x55;
    }
    fs.initialize_directory(&mut image, 9, 4).unwrap();
    assert_eq!(&image[at..at + 11], b".          ");
    assert_eq!(&image[at + 32..at + 43], b"..         ");
    assert_eq!(image[at + 26], 9);
    assert_eq!(image[at + 32 + 26], 4);
    assert!(image[at + 64..at + 512].iter().all(|b| *b == 0));
    assert_eq!(fs.initialize_directory(&mut image, 5000, 4), Err(FsError::Io));
}

#[test]
fn new_directory_on_a_full_volume_is_no_space() {
    let mut image = fresh_image();
    let fs = FAT32::new(&image).unwrap();
    for c in 3..fs.total_clusters {
        fs.set_next_cluster(&mut image, c, 0x0FFF_FFF8).unwrap();
    }
    let copy = image.clone();
    assert_eq!(fs.create_directory(&mut image, 2, "sub"), Err(FsError::NoSpace));
    assert_eq!(image, copy);
}

#[test]
fn cursor_steps_through_the_slots_of_the_chain() {
    let mut image = fresh_image();
    let fs = FAT32::new(&image).unwrap();
    fs.set_next_cluster(&mut image, 2, 7).unwrap();
    fs.set_next_cluster(&mut image, 7, 0x0FFF_FFFF).unwrap();
    let mut cursor = fs.cursor(&image, 2);
    let mut offsets = Vec::new();
    while let Some(pos) = fs.next_slot(&image, &mut cursor).unwrap() {
        offsets.push(pos);
    }
    assert_eq!(offsets.len(), 32);
    assert_eq!(offsets[0], ROOT as u64);
    assert_eq!(offsets[1], ROOT as u64 + 32);
    assert_eq!(offsets[15], ROOT as u64 + 480);
    assert_eq!(offsets[16], fs.cluster_to_offset(7));
    assert_eq!(offsets[31], fs.cluster_to_offset(7) + 480);
}

#[test]
fn cursor_fails_where_the_chain_breaks_off() {
    let mut image = fresh_image();
    let fs = FAT32::new(&image).unwrap();
    fs.set_next_cluster(&mut image, 2, 1).unwrap();
    let mut cursor = fs.cursor(&image, 2);
    for _ in 0..16 {
        assert!(fs.next_slot(&image, &mut cursor).unwrap().is_some());
    }
    assert_eq!(fs.next_slot(&image, &mut cursor), Err(FsError::Io));
}

#[test]
fn probes_halt_at_what_they_look_for() {
    let image = fresh_image();
    let fs = FAT32::new(&image).unwrap();
    let live = fs.create_directory_entry("a", 0x20, 5, 0);
    let mut deleted = live;
    deleted[0] = 0xE5;
    let unused = [0u8; 32];
    assert!(!Probe::End.halts_at(&live));
    assert!(!Probe::End.halts_at(&deleted));
    assert!(Probe::End.halts_at(&unused));
    assert!(!Probe::Vacant.halts_at(&live));
    assert!(Probe::Vacant.halts_at(&deleted));
    assert!(Probe::Vacant.halts_at(&unused));
    assert!(Probe::Name(stored_name("a")).halts_at(&live));
    assert!(!Probe::Name(stored_name("b")).halts_at(&live));
    assert!(!Probe::Name(stored_name("a")).halts_at(&deleted));
    assert!(Probe::Name(stored_name("a")).halts_at(&unused));
    assert!(Probe::FirstCluster(5).halts_at(&live));
    assert!(!Probe::FirstCluster(6).halts_at(&live));
    assert!(Probe::FirstCluster(6).halts_at(&unused));
}

#[test]
fn stored_entry_takes_the_name_as_it_is() {
    let bytes = FAT32::stored_entry(&dot_entry_name(2), 0x10, 7, 0);
    assert_eq!(&bytes[..11], b"..         ");
    assert_eq!(bytes[11], 0x10);
    assert_eq!(bytes[26], 7);
    assert_eq!(decode_entry(&bytes), dot_entry(2, 7));
}

#[test]
fn clusters_of_one_slot_are_listed_slot_by_slot() {
    let mut image = fresh_image();
    put_u16(&mut image, 11, 32);
    let fs = FAT32::new(&image).unwrap();
    let fat = fs.fat_offset as usize;
    put_u32(&mut image, fat + 8, 0x0FFF_FFF8);
    fs.create_file(&mut image, 2, "a").unwrap();
    fs.create_file(&mut image, 2, "b").unwrap();
    assert_eq!(fs.get_cluster_chain(&image, 2), Ok(vec![2, 3]));
    assert_eq!(
        fs.read_directory_entries(&image, 2),
        Ok(vec![entry("a", 0x20, 0, 0), entry("b", 0x20, 0, 0)])
    );
}

#[test]
fn clusters_without_bytes_hold_no_slots() {
    let mut image = fresh_image();
    put_u16(&mut image, 11, 0);
    let fs = FAT32::new(&image).unwrap();
    assert_eq!(fs.fat_offset, 0);
    put_u32(&mut image, 4 * 100, 101);
    put_u32(&mut image, 4 * 101, 0x0FFF_FFF8);
    assert_eq!(fs.read_directory_entries(&image, 100), Ok(vec![]));
    assert_eq!(fs.find_slot(&image, 100, Probe::Vacant), Ok(SlotSearch::End(101)));
    put_u32(&mut image, 4 * 101, 0);
    assert_eq!(fs.read_directory_entries(&image, 100), Err(FsError::Io));
}
