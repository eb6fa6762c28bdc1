use filesys::error::FsError;
use filesys::open_files::{FileMode, OpenFile, OpenFiles};

fn record(name: &str, mode: FileMode) -> OpenFile {
    OpenFile { filename: name.to_string(), mode, offset: 0, first_cluster: 0, file_size: 0 }
}

fn names(table: &OpenFiles) -> Vec<String> {
    table.list_open_files().iter().map(|f| f.filename.clone()).collect()
}

#[test]
fn new_table_is_empty() {
    let table = OpenFiles::new();
    assert!(table.list_open_files().is_empty());
    assert!(!table.is_file_open("A"));
}

#[test]
fn opened_file_is_listed() {
    let mut table = OpenFiles::new();
    assert_eq!(table.open_file(record("A", FileMode::ReadOnly)), Ok(()));
    assert!(table.is_file_open("A"));
    assert!(!table.is_file_open("a"));
    assert!(!table.is_file_open("B"));
    let list = table.list_open_files();
    assert_eq!(list.len(), 1);
    assert_eq!(list[0].filename, "A");
    assert_eq!(list[0].mode, FileMode::ReadOnly);
}

#[test]
fn files_are_listed_in_the_order_of_opening() {
    let mut table = OpenFiles::new();
    for name in ["C", "A", "B"] {
        table.open_file(record(name, FileMode::ReadWrite)).unwrap();
    }
    assert_eq!(names(&table), vec!["C", "A", "B"]);
    table.close_file("A").unwrap();
    assert_eq!(names(&table), vec!["C", "B"]);
}

#[test]
fn eleventh_file_is_refused() {
    let mut table = OpenFiles::new();
    for i in 0..10 {
        assert_eq!(table.open_file(record(&format!("F{}", i), FileMode::ReadOnly)), Ok(()));
    }
    assert_eq!(table.open_file(record("F10", FileMode::ReadOnly)), Err(FsError::Capacity));
    assert_eq!(table.list_open_files().len(), 10);
    assert!(!table.is_file_open("F10"));
    table.close_file("F3").unwrap();
    assert_eq!(table.open_file(record("F10", FileMode::ReadOnly)), Ok(()));
}

#[test]
fn full_table_reports_capacity_before_duplicate() {
    let mut table = OpenFiles::new();
    for i in 0..10 {
        table.open_file(record(&format!("F{}", i), FileMode::ReadOnly)).unwrap();
    }
    assert_eq!(table.open_file(record("F0", FileMode::ReadOnly)), Err(FsError::Capacity));
}

#[test]
fn same_name_twice_is_refused() {
    let mut table = OpenFiles::new();
    table.open_file(record("A", FileMode::ReadOnly)).unwrap();
    let mut other = record("A", FileMode::WriteOnly);
    other.offset = 5;
    assert_eq!(table.open_file(other), Err(FsError::Duplicate));
    let list = table.list_open_files();
    assert_eq!(list.len(), 1);
    assert_eq!(list[0].mode, FileMode::ReadOnly);
    assert_eq!(list[0].offset, 0);
}

#[test]
fn closing_what_is_not_open_is_refused() {
    let mut table = OpenFiles::new();
    assert_eq!(table.close_file("A"), Err(FsError::NotOpen));
    table.open_file(record("A", FileMode::ReadOnly)).unwrap();
    assert_eq!(table.close_file("B"), Err(FsError::NotOpen));
    assert_eq!(table.close_file("A"), Ok(()));
    assert_eq!(table.close_file("A"), Err(FsError::NotOpen));
    assert!(!table.is_file_open("A"));
}

#[test]
fn handle_changes_the_record_in_the_table() {
    let mut table = OpenFiles::new();
    table.open_file(record("A", FileMode::ReadWrite)).unwrap();
    table.open_file(record("B", FileMode::ReadWrite)).unwrap();
    {
        let handle = table.get_file_mut("B").unwrap();
        handle.offset = 42;
        handle.file_size = 100;
    }
    assert!(table.get_file_mut("C").is_none());
    let list = table.list_open_files();
    assert_eq!((list[0].offset, list[0].file_size), (0, 0));
    assert_eq!((list[1].offset, list[1].file_size), (42, 100));
}
