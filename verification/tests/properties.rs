use filesys::commands::{cd, close, creat, ls, lseek, mkdir, open, read, rename, rm, rmdir, size};
use filesys::directory::DirectoryEntry;
use filesys::error::FsError;
use filesys::fat32::FAT32;
use filesys::names::dot_entry_name;
use filesys::open_files::OpenFiles;

fn put_u16(image: &mut Vec<u8>, pos: usize, v: u16) {
    image[pos..pos + 2].copy_from_slice(&v.to_le_bytes());
}

fn put_u32(image: &mut Vec<u8>, pos: usize, v: u32) {
    image[pos..pos + 4].copy_from_slice(&v.to_le_bytes());
}

fn fresh_image() -> Vec<u8> {
    let mut image = vec![0u8; 1024 * 1024];
    put_u16(&mut image, 11, 512);
    image[13] = 1;
    put_u16(&mut image, 14, 32);
    image[16] = 2;
    put_u32(&mut image, 32, 2048);
    put_u32(&mut image, 36, 16);
    put_u32(&mut image, 44, 2);
    put_u16(&mut image, 510, 0xAA55);
    let fat = 32 * 512;
    put_u32(&mut image, fat, 0x0FFF_FFF8);
    put_u32(&mut image, fat + 4, 0x0FFF_FFFF);
    put_u32(&mut image, fat + 8, 0x0FFF_FFF8);
    image
}

fn do_write(
    image: &mut Vec<u8>,
    fs: &FAT32,
    current: u32,
    name: &str,
    text: &str,
    table: &mut OpenFiles,
) -> Result<(), FsError> {
    filesys::commands::write(image, fs, current, name, text, table)
}

fn is_dot(entry: &DirectoryEntry) -> bool {
    entry.name == dot_entry_name(1) || entry.name == dot_entry_name(2)
}

/// Walks the tree below `dir` and adds the clusters of every chain to
/// `owned`. Panics where a file is larger than its chain, a chain does not
/// end in an end mark, or a cluster stands in two chains.
fn walk(image: &[u8], fs: &FAT32, dir: u32, owned: &mut Vec<u32>) {
    let mut clusters = vec![dir];
    loop {
        let next = fs.get_next_cluster(image, *clusters.last().unwrap()).unwrap();
        if next >= 0x0FFF_FFF8 {
            break;
        }
        assert!(next >= 2);
        clusters.push(next);
    }
    for c in clusters {
        assert!(!owned.contains(&c), "cluster {} stands in two chains", c);
        owned.push(c);
    }
    for entry in fs.read_directory_entries(image, dir).unwrap() {
        if is_dot(&entry) {
            continue;
        }
        if entry.is_directory() {
            walk(image, fs, entry.first_cluster, owned);
        } else {
            let chain = fs.get_cluster_chain(image, entry.first_cluster).unwrap();
            assert!(entry.file_size as u64 <= chain.len() as u64 * fs.bytes_per_cluster() as u64);
            if let Some(last) = chain.last() {
                assert!(fs.get_next_cluster(image, *last).unwrap() >= 0x0FFF_FFF8);
            }
            for c in chain {
                assert!(!owned.contains(&c), "cluster {} stands in two chains", c);
                owned.push(c);
            }
        }
    }
}

fn check_volume(image: &[u8], fs: &FAT32) {
    let mut owned = Vec::new();
    walk(image, fs, fs.boot_sector.root_cluster, &mut owned);
    owned.sort();
    let mut in_use = Vec::new();
    for c in 2..fs.total_clusters {
        if fs.get_next_cluster(image, c).unwrap() != 0 {
            in_use.push(c);
        }
    }
    assert_eq!(in_use, owned);
}

fn free_clusters(image: &[u8], fs: &FAT32) -> Vec<u32> {
    (2..fs.total_clusters).filter(|c| fs.get_next_cluster(image, *c).unwrap() == 0).collect()
}

#[test]
fn fresh_volume_is_consistent() {
    let image = fresh_image();
    let fs = FAT32::new(&image).unwrap();
    check_volume(&image, &fs);
}

#[test]
fn volume_stays_consistent_under_a_long_run_of_commands() {
    let mut image = fresh_image();
    let fs = FAT32::new(&image).unwrap();
    let mut table = OpenFiles::new();
    let mut current = fs.boot_sector.root_cluster;
    let names = ["a", "b.txt", "c", "dir", "e.dat", "f", "sub", "h"];
    let mut seed: u32 = 12345;
    let mut step = || {
        seed = seed.wrapping_mul(1_103_515_245).wrapping_add(12345);
        (seed >> 16) as usize
    };
    for _ in 0..600 {
        let name = names[step() % names.len()];
        let other = names[step() % names.len()];
        let before = image.clone();
        let changed_by_failure;
        match step() % 10 {
            0 => changed_by_failure = mkdir(&mut image, &fs, current, name).is_err(),
            1 => changed_by_failure = creat(&mut image, &fs, current, name).is_err(),
            2 => {
                changed_by_failure = false;
                if open(&image, &fs, current, name, "-rw", &mut table).is_ok() {
                    let text = "x".repeat(step() % 1500);
                    do_write(&mut image, &fs, current, name, &text, &mut table).unwrap();
                    let text = "y".repeat(step() % 700);
                    let _ = lseek(name, &format!("{}", step() % 100), &mut table);
                    let _ = do_write(&mut image, &fs, current, name, &text, &mut table);
                    close(name, &mut table).unwrap();
                }
            }
            3 => changed_by_failure = rm(&mut image, &fs, current, name, &table).is_err(),
            4 => changed_by_failure = rmdir(&mut image, &fs, current, name, &table).is_err(),
            5 => changed_by_failure = rename(&mut image, &fs, current, name, other, &table).is_err(),
            6 => {
                changed_by_failure = false;
                let _ = cd(&image, &fs, &mut current, name);
            }
            7 => {
                changed_by_failure = false;
                let _ = cd(&image, &fs, &mut current, "..");
            }
            _ => {
                changed_by_failure = false;
                let _ = ls(&image, &fs, current).unwrap();
            }
        }
        if changed_by_failure {
            assert_eq!(image, before);
        }
        check_volume(&image, &fs);
    }
}

#[test]
fn creat_then_rm_restores_the_free_clusters() {
    let mut image = fresh_image();
    let fs = FAT32::new(&image).unwrap();
    let table = OpenFiles::new();
    creat(&mut image, &fs, 2, "keep").unwrap();
    let free = free_clusters(&image, &fs);
    creat(&mut image, &fs, 2, "x").unwrap();
    rm(&mut image, &fs, 2, "x", &table).unwrap();
    assert_eq!(free_clusters(&image, &fs), free);
    assert_eq!(image[32768 + 32], 0xE5);
}

#[test]
fn mkdir_then_rmdir_restores_the_free_clusters() {
    let mut image = fresh_image();
    let fs = FAT32::new(&image).unwrap();
    let table = OpenFiles::new();
    let free = free_clusters(&image, &fs);
    mkdir(&mut image, &fs, 2, "d").unwrap();
    assert_ne!(free_clusters(&image, &fs), free);
    rmdir(&mut image, &fs, 2, "d", &table).unwrap();
    assert_eq!(free_clusters(&image, &fs), free);
}

#[test]
fn write_then_rm_restores_the_free_clusters() {
    let mut image = fresh_image();
    let fs = FAT32::new(&image).unwrap();
    let mut table = OpenFiles::new();
    let free = free_clusters(&image, &fs);
    creat(&mut image, &fs, 2, "f").unwrap();
    open(&image, &fs, 2, "f", "-w", &mut table).unwrap();
    do_write(&mut image, &fs, 2, "f", &"z".repeat(3000), &mut table).unwrap();
    close("f", &mut table).unwrap();
    assert_eq!(free_clusters(&image, &fs).len(), free.len() - 6);
    rm(&mut image, &fs, 2, "f", &table).unwrap();
    assert_eq!(free_clusters(&image, &fs), free);
}

#[test]
fn creat_in_a_full_directory_takes_a_cluster_that_rm_does_not_give_back() {
    let mut image = fresh_image();
    let fs = FAT32::new(&image).unwrap();
    let table = OpenFiles::new();
    for i in 0..16 {
        creat(&mut image, &fs, 2, &format!("f{}", i)).unwrap();
    }
    let free = free_clusters(&image, &fs);
    creat(&mut image, &fs, 2, "x").unwrap();
    rm(&mut image, &fs, 2, "x", &table).unwrap();
    assert_eq!(free_clusters(&image, &fs).len(), free.len() - 1);
    check_volume(&image, &fs);
}

#[test]
fn data_up_to_many_clusters_reads_back() {
    let mut image = fresh_image();
    let fs = FAT32::new(&image).unwrap();
    let mut table = OpenFiles::new();
    creat(&mut image, &fs, 2, "big").unwrap();
    open(&image, &fs, 2, "big", "-rw", &mut table).unwrap();
    let text: String = (0..20_000).map(|i| (b'a' + (i % 26) as u8) as char).collect();
    do_write(&mut image, &fs, 2, "big", &text, &mut table).unwrap();
    assert_eq!(size(&image, &fs, 2, "big"), Ok(20_000));
    lseek("big", "0", &mut table).unwrap();
    assert_eq!(read(&image, &fs, "big", "20000", &mut table), Ok(text.clone().into_bytes()));
    lseek("big", "510", &mut table).unwrap();
    assert_eq!(read(&image, &fs, "big", "4", &mut table), Ok(text.as_bytes()[510..514].to_vec()));
    check_volume(&image, &fs);
}

#[test]
fn rename_there_and_back_restores_the_image() {
    let mut image = fresh_image();
    let fs = FAT32::new(&image).unwrap();
    let table = OpenFiles::new();
    creat(&mut image, &fs, 2, "first").unwrap();
    creat(&mut image, &fs, 2, "a.txt").unwrap();
    mkdir(&mut image, &fs, 2, "d").unwrap();
    let before = image.clone();
    rename(&mut image, &fs, 2, "a.txt", "b.dat", &table).unwrap();
    assert_ne!(image, before);
    rename(&mut image, &fs, 2, "b.dat", "a.txt", &table).unwrap();
    assert_eq!(image, before);
    rename(&mut image, &fs, 2, "d", "e", &table).unwrap();
    rename(&mut image, &fs, 2, "e", "D", &table).unwrap();
    assert_eq!(image, before);
}

#[test]
fn rename_back_gives_the_stored_form_of_the_name() {
    let mut image = fresh_image();
    let fs = FAT32::new(&image).unwrap();
    let table = OpenFiles::new();
    creat(&mut image, &fs, 2, "MiXed.TxT").unwrap();
    let before = image.clone();
    rename(&mut image, &fs, 2, "mixed.txt", "other", &table).unwrap();
    rename(&mut image, &fs, 2, "OTHER", "mixed.TXT", &table).unwrap();
    assert_eq!(image, before);
    assert_eq!(&image[32768..32768 + 11], b"MIXED   TXT");
}

#[test]
fn listing_twice_gives_the_same_entries() {
    let mut image = fresh_image();
    let fs = FAT32::new(&image).unwrap();
    let table = OpenFiles::new();
    creat(&mut image, &fs, 2, "a").unwrap();
    mkdir(&mut image, &fs, 2, "d").unwrap();
    creat(&mut image, &fs, 2, "b").unwrap();
    rm(&mut image, &fs, 2, "a", &table).unwrap();
    let first = fs.read_directory_entries(&image, 2).unwrap();
    let second = fs.read_directory_entries(&image, 2).unwrap();
    assert_eq!(first, second);
    assert_eq!(ls(&image, &fs, 2), ls(&image, &fs, 2));
}

#[test]
fn listing_is_not_changed_by_changes_elsewhere() {
    let mut image = fresh_image();
    let fs = FAT32::new(&image).unwrap();
    let mut table = OpenFiles::new();
    creat(&mut image, &fs, 2, "a").unwrap();
    mkdir(&mut image, &fs, 2, "d").unwrap();
    let listed = fs.read_directory_entries(&image, 2).unwrap();
    creat(&mut image, &fs, 3, "inside").unwrap();
    open(&image, &fs, 3, "inside", "-w", &mut table).unwrap();
    do_write(&mut image, &fs, 3, "inside", "some data", &mut table).unwrap();
    assert_eq!(fs.read_directory_entries(&image, 2).unwrap(), listed);
}

#[test]
fn deleted_slot_is_used_again_and_the_volume_stays_consistent() {
    let mut image = fresh_image();
    let fs = FAT32::new(&image).unwrap();
    let table = OpenFiles::new();
    creat(&mut image, &fs, 2, "a").unwrap();
    creat(&mut image, &fs, 2, "b").unwrap();
    rm(&mut image, &fs, 2, "a", &table).unwrap();
    mkdir(&mut image, &fs, 2, "c").unwrap();
    assert_eq!(ls(&image, &fs, 2), Ok(vec!["C".to_string(), "B".to_string()]));
    check_volume(&image, &fs);
}

#[test]
fn name_that_begins_with_e5_makes_an_entry_that_is_not_listed() {
    let mut image = fresh_image();
    let fs = FAT32::new(&image).unwrap();
    creat(&mut image, &fs, 2, "\u{5343}").unwrap();
    assert_eq!(image[32768], 0xE5);
    assert_eq!(ls(&image, &fs, 2), Ok(vec![]));
}

#[test]
fn failed_mkdir_behind_a_full_parent_leaves_one_cluster_in_use() {
    let mut image = fresh_image();
    let fs = FAT32::new(&image).unwrap();
    for i in 0..16 {
        creat(&mut image, &fs, 2, &format!("f{}", i)).unwrap();
    }
    for c in 4..fs.total_clusters {
        fs.set_next_cluster(&mut image, c, 0x0FFF_FFF8).unwrap();
    }
    assert_eq!(free_clusters(&image, &fs), vec![3]);
    let listed = fs.read_directory_entries(&image, 2).unwrap();
    assert_eq!(mkdir(&mut image, &fs, 2, "d"), Err(FsError::NoSpace));
    assert_eq!(free_clusters(&image, &fs), vec![]);
    assert_eq!(fs.get_next_cluster(&image, 3), Ok(0x0FFF_FFF8));
    assert_eq!(fs.read_directory_entries(&image, 2).unwrap(), listed);
}

#[test]
fn failed_write_keeps_the_clusters_it_took_in_the_chain() {
    let mut image = fresh_image();
    let fs = FAT32::new(&image).unwrap();
    let mut table = OpenFiles::new();
    creat(&mut image, &fs, 2, "f").unwrap();
    open(&image, &fs, 2, "f", "-rw", &mut table).unwrap();
    do_write(&mut image, &fs, 2, "f", "abc", &mut table).unwrap();
    for c in 6..fs.total_clusters {
        fs.set_next_cluster(&mut image, c, 0x0FFF_FFF8).unwrap();
    }
    let text = "x".repeat(5000);
    assert_eq!(do_write(&mut image, &fs, 2, "f", &text, &mut table), Err(FsError::NoSpace));
    assert_eq!(fs.get_cluster_chain(&image, 3), Ok(vec![3, 4, 5]));
    assert_eq!(size(&image, &fs, 2, "f"), Ok(3));
    lseek("f", "0", &mut table).unwrap();
    assert_eq!(read(&image, &fs, "f", "3", &mut table), Ok(b"abc".to_vec()));
}

fn listed(image: &[u8], fs: &FAT32, dir: u32) -> Vec<([u8; 11], u8, u32, u32)> {
    fs.read_directory_entries(image, dir)
        .unwrap()
        .iter()
        .map(|e| (e.name, e.attr, e.first_cluster, e.file_size))
        .collect()
}

#[test]
fn creat_then_rm_restores_the_listing() {
    let mut image = fresh_image();
    let fs = FAT32::new(&image).unwrap();
    let table = OpenFiles::new();
    creat(&mut image, &fs, 2, "keep").unwrap();
    mkdir(&mut image, &fs, 2, "sub").unwrap();
    let before = listed(&image, &fs, 2);
    assert_eq!(before.len(), 2);
    creat(&mut image, &fs, 2, "x").unwrap();
    assert_eq!(listed(&image, &fs, 2).len(), 3);
    assert_eq!(rm(&mut image, &fs, 2, "x", &table), Ok(()));
    assert_eq!(listed(&image, &fs, 2), before);
    // The slot behind the deleted one still ends the directory.
    assert_eq!(image[32768 + 64], 0xE5);
    assert_eq!(image[32768 + 96], 0x00);
}

#[test]
fn creat_in_a_deleted_slot_then_rm_restores_the_listing() {
    let mut image = fresh_image();
    let fs = FAT32::new(&image).unwrap();
    let table = OpenFiles::new();
    creat(&mut image, &fs, 2, "a").unwrap();
    creat(&mut image, &fs, 2, "b").unwrap();
    creat(&mut image, &fs, 2, "c").unwrap();
    rm(&mut image, &fs, 2, "b", &table).unwrap();
    let before = listed(&image, &fs, 2);
    assert_eq!(before.len(), 2);
    creat(&mut image, &fs, 2, "x").unwrap();
    assert_eq!(listed(&image, &fs, 2)[1].0, *b"X          ");
    assert_eq!(rm(&mut image, &fs, 2, "x", &table), Ok(()));
    assert_eq!(listed(&image, &fs, 2), before);
}

#[test]
fn mkdir_then_rmdir_succeeds_and_restores_the_listing() {
    let mut image = fresh_image();
    let fs = FAT32::new(&image).unwrap();
    let table = OpenFiles::new();
    creat(&mut image, &fs, 2, "keep").unwrap();
    let before = listed(&image, &fs, 2);
    let free = free_clusters(&image, &fs);
    mkdir(&mut image, &fs, 2, "d").unwrap();
    assert_eq!(listed(&image, &fs, 2).len(), 2);
    assert_eq!(rmdir(&mut image, &fs, 2, "d", &table), Ok(()));
    assert_eq!(listed(&image, &fs, 2), before);
    assert_eq!(free_clusters(&image, &fs), free);
}

#[test]
fn mkdir_then_rmdir_succeeds_below_the_root() {
    let mut image = fresh_image();
    let fs = FAT32::new(&image).unwrap();
    let table = OpenFiles::new();
    mkdir(&mut image, &fs, 2, "outer").unwrap();
    let outer = listed(&image, &fs, 2)[0].2;
    let before = listed(&image, &fs, outer);
    assert_eq!(before.len(), 2);
    mkdir(&mut image, &fs, outer, "inner").unwrap();
    assert_eq!(rmdir(&mut image, &fs, outer, "inner", &table), Ok(()));
    assert_eq!(listed(&image, &fs, outer), before);
}

#[test]
fn write_records_a_size_that_the_chain_holds() {
    let mut image = fresh_image();
    let fs = FAT32::new(&image).unwrap();
    let mut table = OpenFiles::new();
    creat(&mut image, &fs, 2, "f").unwrap();
    open(&image, &fs, 2, "f", "-w", &mut table).unwrap();
    do_write(&mut image, &fs, 2, "f", &"y".repeat(513), &mut table).unwrap();
    let entry = listed(&image, &fs, 2)[0];
    assert_eq!(entry.3, 513);
    let chain = fs.get_cluster_chain(&image, entry.2).unwrap();
    assert_eq!(chain.len(), 2);
    assert!(fs.get_next_cluster(&image, chain[1]).unwrap() >= 0x0FFF_FFF8);
    assert_eq!(fs.get_next_cluster(&image, chain[0]).unwrap(), chain[1]);
}
