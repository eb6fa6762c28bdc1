//! The commands of the shell, each as a function from the image, the
//! current directory and the open-file table to a result. Nothing here
//! prints: a caller shows the result, or the error, in its own words.

use vstd::prelude::*;
use crate::directory::{DirectoryEntry, EntryView, ProbeView, entry_views};
use crate::edit::{fresh_entry, Outcome};
use crate::error::FsError;
use crate::fat32::FAT32;
use crate::image::lemma_mul_bound;
use crate::names::{
    display_text, dot_name, format_name, parse_decimal, parse_u32, short_name, stored_name,
    str_bytes, str_eq, DOT,
};
use crate::open_files::{lemma_find_name, FileMode, OpenFile, OpenFileView, OpenFiles};
use crate::scan::bytes_eq;

verus! {

/// The ASCII quotation mark.
pub const QUOTE: u8 = 0x22;

/// The figures that the `info` command shows.
#[derive(Debug, Clone, Copy, PartialEq, Eq)]
pub struct VolumeInfo {
    pub root_cluster: u32,
    pub bytes_per_sector: u16,
    pub sectors_per_cluster: u8,
    pub total_clusters: u32,
    pub fat_entries: u64,
    pub image_size: u64,
}

/// The index of the first entry at or after `from` with the given stored
/// name; the number of entries where there is none.
pub open spec fn first_named(entries: Seq<EntryView>, name: Seq<u8>, from: int) -> int
    decreases entries.len() - from,
{
    if from >= entries.len() {
        entries.len() as int
    } else if entries[from].name == name {
        from
    } else {
        first_named(entries, name, from + 1)
    }
}

/// The index of the first entry at or after `from` with the given stored
/// name that is a directory (`directory` is true) or a file (it is false);
/// the number of entries where there is none.
pub open spec fn first_of_kind(
    entries: Seq<EntryView>,
    name: Seq<u8>,
    directory: bool,
    from: int,
) -> int
    decreases entries.len() - from,
{
    if from >= entries.len() {
        entries.len() as int
    } else if entries[from].name == name && entries[from].is_directory() == directory {
        from
    } else {
        first_of_kind(entries, name, directory, from + 1)
    }
}

/// An entry with the given stored name is listed.
pub open spec fn has_name(entries: Seq<EntryView>, name: Seq<u8>) -> bool {
    first_named(entries, name, 0) < entries.len()
}

/// The entry of the wanted kind that a name stands for in a listing, or why
/// there is none: an entry of the other kind has the name, or no entry has
/// it.
pub open spec fn lookup(entries: Seq<EntryView>, name: Seq<u8>, directory: bool) -> Result<
    EntryView,
    FsError,
> {
    let i = first_of_kind(entries, name, directory, 0);
    if i < entries.len() {
        Ok(entries[i])
    } else if has_name(entries, name) {
        Err(
            if directory {
                FsError::NotDirectory
            } else {
                FsError::IsDirectory
            },
        )
    } else {
        Err(FsError::NotFound)
    }
}

/// The name under which the open-file table keys a file: the shown form of
/// the stored form of the name that the user gave.
pub open spec fn key_text(name: Seq<u8>) -> Seq<char> {
    display_text(short_name(name))
}

/// The name is `.` or `..`.
pub open spec fn is_special(name: Seq<u8>) -> bool {
    name =~= seq![DOT] || name =~= seq![DOT, DOT]
}

/// The stored name is that of `.` or `..`.
pub open spec fn is_dot_entry(name: Seq<u8>) -> bool {
    name == dot_name(1) || name == dot_name(2)
}

/// Every entry of the listing is `.` or `..`.
pub open spec fn only_dot_entries(entries: Seq<EntryView>) -> bool {
    forall|i: int| 0 <= i < entries.len() ==> is_dot_entry((#[trigger] entries[i]).name)
}

/// The shown names of a listing, in order.
pub open spec fn shown_names(entries: Seq<EntryView>) -> Seq<Seq<char>> {
    Seq::new(entries.len(), |i: int| display_text(entries[i].name))
}

/// The views of a sequence of strings.
pub open spec fn texts(names: Seq<String>) -> Seq<Seq<char>> {
    Seq::new(names.len(), |i: int| names[i]@)
}

/// A text without one quotation mark at its start and one at its end, as
/// far as they are there.
pub open spec fn unquoted(text: Seq<u8>) -> Seq<u8> {
    let tail = if text.len() > 0 && text[0] == QUOTE {
        text.skip(1)
    } else {
        text
    };
    if tail.len() > 0 && tail.last() == QUOTE {
        tail.drop_last()
    } else {
        tail
    }
}

/// The mode that a flag of the `open` command asks for.
pub open spec fn mode_of_flag(flag: Seq<char>) -> Option<FileMode> {
    if flag == "-r"@ {
        Some(FileMode::ReadOnly)
    } else if flag == "-w"@ {
        Some(FileMode::WriteOnly)
    } else if flag == "-rw"@ || flag == "-wr"@ {
        Some(FileMode::ReadWrite)
    } else {
        None
    }
}

/// The search for a stored name ends inside the listing exactly where an
/// entry has that name, and then at the first such entry.
pub proof fn lemma_first_named(entries: Seq<EntryView>, name: Seq<u8>, from: int)
    requires
        0 <= from <= entries.len(),
    ensures
        from <= first_named(entries, name, from) <= entries.len(),
        first_named(entries, name, from) < entries.len() ==> entries[first_named(
            entries,
            name,
            from,
        )].name == name,
        forall|i: int|
            from <= i < first_named(entries, name, from) ==> (#[trigger] entries[i]).name != name,
    decreases entries.len() - from,
{
    if from < entries.len() && entries[from].name != name {
        lemma_first_named(entries, name, from + 1);
    }
}

/// Finds the first entry with the given stored name.
pub fn find_named(entries: &Vec<DirectoryEntry>, name: &[u8; 11]) -> (i: usize)
    ensures
        i == first_named(entry_views(entries@), name@, 0),
        i <= entries@.len(),
        i < entries@.len() ==> entries@[i as int].name@ == name@,
{
    proof {
        lemma_first_named(entry_views(entries@), name@, 0);
    }
    let mut i: usize = 0;
    while i < entries.len()
        invariant
            i <= entries@.len(),
            first_named(entry_views(entries@), name@, 0) == first_named(
                entry_views(entries@),
                name@,
                i as int,
            ),
        decreases entries@.len() - i,
    {
        if bytes_eq(entries[i].name.as_slice(), name.as_slice()) {
            return i;
        }
        i += 1;
    }
    i
}

/// Finds the first entry with the given stored name that is a directory
/// (`directory` is true) or a file (it is false), or says why there is
/// none.
pub fn find_of_kind(entries: &Vec<DirectoryEntry>, name: &[u8; 11], directory: bool) -> (r: Result<
    DirectoryEntry,
    FsError,
>)
    ensures
        match lookup(entry_views(entries@), name@, directory) {
            Ok(entry) => r.is_ok() && r.unwrap()@ == entry,
            Err(e) => r == Err::<DirectoryEntry, FsError>(e),
        },
{
    let mut i: usize = 0;
    while i < entries.len()
        invariant
            i <= entries@.len(),
            first_of_kind(entry_views(entries@), name@, directory, 0) == first_of_kind(
                entry_views(entries@),
                name@,
                directory,
                i as int,
            ),
        decreases entries@.len() - i,
    {
        if bytes_eq(entries[i].name.as_slice(), name.as_slice()) && entries[i].is_directory()
            == directory {
            return Ok(entries[i]);
        }
        i += 1;
    }
    if find_named(entries, name) < entries.len() {
        if directory {
            Err(FsError::NotDirectory)
        } else {
            Err(FsError::IsDirectory)
        }
    } else {
        Err(FsError::NotFound)
    }
}

/// The name under which the open-file table keys the file that the user
/// calls `filename`.
pub fn open_key(filename: &str) -> (key: String)
    ensures
        key@ == key_text(str_bytes(filename)),
{
    let stored = stored_name(filename);
    format_name(stored.as_slice())
}

/// Whether the name is `.` or `..`.
pub fn is_special_name(name: &str) -> (r: bool)
    ensures
        r == is_special(str_bytes(name)),
{
    let bytes = name.as_bytes();
    if bytes.len() == 1 {
        let r = bytes[0] == DOT;
        assert(r ==> bytes@ =~= seq![DOT]);
        assert(!r ==> !(bytes@ =~= seq![DOT])) by {
            assert(seq![DOT][0] == DOT);
        }
        assert(!(bytes@ =~= seq![DOT, DOT])) by {
            assert(seq![DOT, DOT].len() == 2);
        }
        r
    } else if bytes.len() == 2 {
        let r = bytes[0] == DOT && bytes[1] == DOT;
        assert(r ==> bytes@ =~= seq![DOT, DOT]);
        assert(!r ==> !(bytes@ =~= seq![DOT, DOT])) by {
            assert(seq![DOT, DOT][0] == DOT);
            assert(seq![DOT, DOT][1] == DOT);
        }
        assert(!(bytes@ =~= seq![DOT])) by {
            assert(seq![DOT].len() == 1);
        }
        r
    } else {
        assert(!(bytes@ =~= seq![DOT])) by {
            assert(seq![DOT].len() == 1);
        }
        assert(!(bytes@ =~= seq![DOT, DOT])) by {
            assert(seq![DOT, DOT].len() == 2);
        }
        false
    }
}

/// Takes one quotation mark off the start of a text and one off its end, as
/// far as they are there.
pub fn strip_quotes(text: &[u8]) -> (r: &[u8])
    ensures
        r@ == unquoted(text@),
{
    let mut from: usize = 0;
    let mut to: usize = text.len();
    if from < to && text[from] == QUOTE {
        from = 1;
    }
    if from < to && text[to - 1] == QUOTE {
        to = to - 1;
    }
    let r = vstd::slice::slice_subrange(text, from, to);
    assert(r@ =~= unquoted(text@));
    r
}

/// The figures of the volume: where the root directory starts, the sizes of
/// sectors and clusters, the number of clusters, the number of entries in
/// one FAT and the size of the image in bytes.
pub fn info(fat32: &FAT32) -> (r: VolumeInfo)
    ensures
        r.root_cluster == fat32.boot_sector.root_cluster,
        r.bytes_per_sector == fat32.boot_sector.bytes_per_sector,
        r.sectors_per_cluster == fat32.boot_sector.sectors_per_cluster,
        r.total_clusters == fat32.total_clusters,
        r.fat_entries == (fat32.boot_sector.fat_size_32 * fat32.boot_sector.bytes_per_sector) / 4,
        r.image_size == fat32.boot_sector.total_sectors * fat32.boot_sector.bytes_per_sector,
{
    proof {
        lemma_mul_bound(
            fat32.boot_sector.fat_size_32 as int,
            fat32.boot_sector.bytes_per_sector as int,
            0xFFFF_FFFF,
            0xFFFF,
        );
        lemma_mul_bound(
            fat32.boot_sector.total_sectors as int,
            fat32.boot_sector.bytes_per_sector as int,
            0xFFFF_FFFF,
            0xFFFF,
        );
    }
    VolumeInfo {
        root_cluster: fat32.boot_sector.root_cluster,
        bytes_per_sector: fat32.boot_sector.bytes_per_sector,
        sectors_per_cluster: fat32.boot_sector.sectors_per_cluster,
        total_clusters: fat32.total_clusters,
        fat_entries: (fat32.boot_sector.fat_size_32 as u64
            * fat32.boot_sector.bytes_per_sector as u64) / 4,
        image_size: fat32.boot_sector.total_sectors as u64
            * fat32.boot_sector.bytes_per_sector as u64,
    }
}

/// The shown names of the entries of the current directory, in the order
/// of their slots.
pub fn ls(image: &[u8], fat32: &FAT32, current_dir_cluster: u32) -> (r: Result<
    Vec<String>,
    FsError,
>)
    requires
        fat32.wf(),
    ensures
        match fat32.listing(image@, current_dir_cluster) {
            Ok(entries) => r.is_ok() && texts(r.unwrap()@) == shown_names(entries),
            Err(e) => r == Err::<Vec<String>, FsError>(e),
        },
{
    let entries = fat32.read_directory_entries(image, current_dir_cluster)?;
    let mut names: Vec<String> = Vec::new();
    let mut i: usize = 0;
    while i < entries.len()
        invariant
            i <= entries@.len(),
            names@.len() == i,
            forall|j: int|
                0 <= j < i ==> (#[trigger] names@[j])@ == display_text(entries@[j]@.name),
        decreases entries@.len() - i,
    {
        names.push(format_name(entries[i].name.as_slice()));
        i += 1;
    }
    assert(texts(names@) =~= shown_names(entry_views(entries@)));
    Ok(names)
}

/// The directory that `cd` leads to from the directory at `current`: the
/// same for `.`; for `..` the first cluster of the first directory entry
/// with the stored name of the entry `..`; else the first cluster of the
/// first directory entry with the stored form of the name.
pub open spec fn cd_target(fat32: &FAT32, image: Seq<u8>, current: u32, name: Seq<u8>) -> Result<
    u32,
    FsError,
> {
    if name =~= seq![DOT] {
        Ok(current)
    } else {
        let wanted = if name =~= seq![DOT, DOT] {
            dot_name(2)
        } else {
            short_name(name)
        };
        match fat32.listing(image, current) {
            Err(e) => Err(e),
            Ok(entries) => match lookup(entries, wanted, true) {
                Ok(entry) => Ok(entry.first_cluster),
                Err(e) => Err(e),
            },
        }
    }
}

/// Changes the current directory: `.` stays, `..` leads to the directory
/// that the entry `..` names, and any other name to the first cluster of the
/// directory entry with that name. On an error the current directory stays
/// as it was.
pub fn cd(image: &[u8], fat32: &FAT32, current_dir_cluster: &mut u32, dirname: &str) -> (r: Result<
    (),
    FsError,
>)
    requires
        fat32.wf(),
    ensures
        match cd_target(fat32, image@, *old(current_dir_cluster), str_bytes(dirname)) {
            Ok(cluster) => r == Ok::<(), FsError>(()) && *final(current_dir_cluster) == cluster,
            Err(e) => r == Err::<(), FsError>(e) && *final(current_dir_cluster) == *old(
                current_dir_cluster,
            ),
        },
{
    let bytes = dirname.as_bytes();
    if bytes.len() == 1 && bytes[0] == DOT {
        assert(bytes@ =~= seq![DOT]);
        return Ok(());
    }
    assert(!(bytes@ =~= seq![DOT])) by {
        assert(seq![DOT].len() == 1);
        assert(seq![DOT][0] == DOT);
    }
    let entries = fat32.read_directory_entries(image, *current_dir_cluster)?;
    let stored = if is_special_name(dirname) {
        crate::names::dot_entry_name(2)
    } else {
        stored_name(dirname)
    };
    let entry = find_of_kind(&entries, &stored, true)?;
    *current_dir_cluster = entry.first_cluster;
    Ok(())
}

/// The size that the directory records for the file `filename`.
pub fn size(image: &[u8], fat32: &FAT32, current_dir_cluster: u32, filename: &str) -> (r: Result<
    u32,
    FsError,
>)
    requires
        fat32.wf(),
    ensures
        match fat32.listing(image@, current_dir_cluster) {
            Err(e) => r == Err::<u32, FsError>(e),
            Ok(entries) => match lookup(entries, short_name(str_bytes(filename)), false) {
                Ok(entry) => r == Ok::<u32, FsError>(entry.file_size),
                Err(e) => r == Err::<u32, FsError>(e),
            },
        },
{
    let entries = fat32.read_directory_entries(image, current_dir_cluster)?;
    let stored = fat32.format_filename(filename);
    let entry = find_of_kind(&entries, &stored, false)?;
    Ok(entry.file_size)
}

/// The records of the open files, in the order in which they were opened.
pub fn lsof(open_files: &OpenFiles) -> (list: Vec<&OpenFile>)
    ensures
        list@.len() == open_files.records().len(),
        forall|i: int| 0 <= i < list@.len() ==> (#[trigger] list@[i])@ == open_files.records()[i],
{
    open_files.list_open_files()
}

/// The image and outcome of `mkdir`: `AlreadyExists` where the current
/// directory lists the name, else what creating the directory comes to.
pub open spec fn mkdir_outcome(fat32: &FAT32, image: Seq<u8>, current: u32, name: Seq<u8>) -> Outcome {
    match fat32.listing(image, current) {
        Err(e) => Outcome { image, result: Err(e) },
        Ok(entries) => if has_name(entries, short_name(name)) {
            Outcome { image, result: Err(FsError::AlreadyExists) }
        } else {
            fat32.directory_created(image, current, name)
        },
    }
}

/// The image and outcome of `creat`: `AlreadyExists` where the current
/// directory lists the name, else what adding an empty file comes to.
pub open spec fn creat_outcome(fat32: &FAT32, image: Seq<u8>, current: u32, name: Seq<u8>) -> Outcome {
    match fat32.listing(image, current) {
        Err(e) => Outcome { image, result: Err(e) },
        Ok(entries) => if has_name(entries, short_name(name)) {
            Outcome { image, result: Err(FsError::AlreadyExists) }
        } else {
            fat32.added(image, current, fresh_entry(name, 0, false))
        },
    }
}

/// Creates a directory in the current directory, unless an entry of that
/// name is listed there.
pub fn mkdir(image: &mut Vec<u8>, fat32: &FAT32, current_dir_cluster: u32, dirname: &str) -> (r:
    Result<(), FsError>)
    requires
        fat32.wf(),
        fat32.holds_directories(),
    ensures
        final(image)@ == mkdir_outcome(
            fat32,
            old(image)@,
            current_dir_cluster,
            str_bytes(dirname),
        ).image,
        r == mkdir_outcome(fat32, old(image)@, current_dir_cluster, str_bytes(dirname)).result,
{
    let entries = fat32.read_directory_entries(image.as_slice(), current_dir_cluster)?;
    let stored = fat32.format_filename(dirname);
    if find_named(&entries, &stored) < entries.len() {
        return Err(FsError::AlreadyExists);
    }
    fat32.create_directory(image, current_dir_cluster, dirname)
}

/// Creates an empty file in the current directory, unless an entry of that
/// name is listed there.
pub fn creat(image: &mut Vec<u8>, fat32: &FAT32, current_dir_cluster: u32, filename: &str) -> (r:
    Result<(), FsError>)
    requires
        fat32.wf(),
    ensures
        final(image)@ == creat_outcome(
            fat32,
            old(image)@,
            current_dir_cluster,
            str_bytes(filename),
        ).image,
        r == creat_outcome(fat32, old(image)@, current_dir_cluster, str_bytes(filename)).result,
{
    let entries = fat32.read_directory_entries(image.as_slice(), current_dir_cluster)?;
    let stored = fat32.format_filename(filename);
    if find_named(&entries, &stored) < entries.len() {
        return Err(FsError::AlreadyExists);
    }
    fat32.create_file(image, current_dir_cluster, filename)
}

/// Reads the mode that a flag asks for.
pub fn parse_mode(flags: &str) -> (r: Option<FileMode>)
    ensures
        r == mode_of_flag(flags@),
{
    if str_eq(flags, "-r") {
        Some(FileMode::ReadOnly)
    } else if str_eq(flags, "-w") {
        Some(FileMode::WriteOnly)
    } else if str_eq(flags, "-rw") || str_eq(flags, "-wr") {
        Some(FileMode::ReadWrite)
    } else {
        None
    }
}

/// The record that `open` enters, or why it enters none. The checks come
/// in this order: the file is open already (`Duplicate`), the flag names no
/// mode (`BadMode`), the directory cannot be listed, no file of that name
/// is listed (`IsDirectory`, `NotFound`), the table is full (`Capacity`).
pub open spec fn open_record(
    fat32: &FAT32,
    image: Seq<u8>,
    current: u32,
    name: Seq<u8>,
    flag: Seq<char>,
    table: &OpenFiles,
) -> Result<OpenFileView, FsError> {
    if table.is_open(key_text(name)) {
        Err(FsError::Duplicate)
    } else if mode_of_flag(flag) is None {
        Err(FsError::BadMode)
    } else {
        match fat32.listing(image, current) {
            Err(e) => Err(e),
            Ok(entries) => match lookup(entries, short_name(name), false) {
                Err(e) => Err(e),
                Ok(entry) => if table.records().len() >= crate::open_files::MAX_OPEN_FILES {
                    Err(FsError::Capacity)
                } else {
                    Ok(
                        OpenFileView {
                            filename: key_text(name),
                            mode: mode_of_flag(flag).unwrap(),
                            offset: 0,
                            first_cluster: entry.first_cluster,
                            file_size: entry.file_size,
                        },
                    )
                },
            },
        }
    }
}

/// Opens a file of the current directory in the mode that the flag asks
/// for, with its offset at zero.
pub fn open(
    image: &[u8],
    fat32: &FAT32,
    current_dir_cluster: u32,
    filename: &str,
    flags: &str,
    open_files: &mut OpenFiles,
) -> (r: Result<(), FsError>)
    requires
        fat32.wf(),
        old(open_files).wf(),
    ensures
        final(open_files).wf(),
        match open_record(
            fat32,
            image@,
            current_dir_cluster,
            str_bytes(filename),
            flags@,
            old(open_files),
        ) {
            Ok(record) => r == Ok::<(), FsError>(()) && final(open_files).records() == old(open_files).records().push(record),
            Err(e) => r == Err::<(), FsError>(e) && final(open_files).records() == old(open_files).records(),
        },
{
    let key = open_key(filename);
    if open_files.is_file_open(key.as_str()) {
        return Err(FsError::Duplicate);
    }
    let mode = match parse_mode(flags) {
        Some(mode) => mode,
        None => {
            return Err(FsError::BadMode);
        },
    };
    let entries = fat32.read_directory_entries(image, current_dir_cluster)?;
    let stored = fat32.format_filename(filename);
    let entry = find_of_kind(&entries, &stored, false)?;
    let open_file = OpenFile {
        filename: key,
        mode,
        offset: 0,
        first_cluster: entry.first_cluster,
        file_size: entry.file_size,
    };
    open_files.open_file(open_file)
}

/// Closes the file that the user calls `filename`.
pub fn close(filename: &str, open_files: &mut OpenFiles) -> (r: Result<(), FsError>)
    requires
        old(open_files).wf(),
    ensures
        final(open_files).wf(),
        old(open_files).is_open(key_text(str_bytes(filename))) ==> r == Ok::<(), FsError>(())
            && final(open_files).records() == old(open_files).records().remove(
            old(open_files).index_of(key_text(str_bytes(filename))),
        ),
        !old(open_files).is_open(key_text(str_bytes(filename))) ==> r == Err::<(), FsError>(
            FsError::NotOpen,
        ) && final(open_files).records() == old(open_files).records(),
{
    let key = open_key(filename);
    open_files.close_file(key.as_str())
}

/// A record with another offset.
pub open spec fn at_offset(record: OpenFileView, offset: u32) -> OpenFileView {
    OpenFileView { offset, ..record }
}

/// The offset that `lseek` sets, or why it sets none: the text is no number
/// (`OutOfRange`), no file of that name is open (`NotOpen`), or the offset
/// lies beyond the size of the file (`OutOfRange`). An offset equal to the
/// size is accepted.
pub open spec fn lseek_target(name: Seq<u8>, text: Seq<u8>, table: &OpenFiles) -> Result<
    u32,
    FsError,
> {
    match parse_decimal(text) {
        None => Err(FsError::OutOfRange),
        Some(offset) => if !table.is_open(key_text(name)) {
            Err(FsError::NotOpen)
        } else if offset > table.records()[table.index_of(key_text(name))].file_size {
            Err(FsError::OutOfRange)
        } else {
            Ok(offset)
        },
    }
}

/// Sets the offset of an open file.
pub fn lseek(filename: &str, offset_str: &str, open_files: &mut OpenFiles) -> (r: Result<
    (),
    FsError,
>)
    requires
        old(open_files).wf(),
    ensures
        final(open_files).wf(),
        match lseek_target(str_bytes(filename), str_bytes(offset_str), old(open_files)) {
            Ok(offset) => r == Ok::<(), FsError>(()) && final(open_files).records() == old(open_files).records().update(
                old(open_files).index_of(key_text(str_bytes(filename))),
                at_offset(
                    old(open_files).records()[old(open_files).index_of(
                        key_text(str_bytes(filename)),
                    )],
                    offset,
                ),
            ),
            Err(e) => r == Err::<(), FsError>(e) && final(open_files).records() == old(open_files).records(),
        },
{
    let offset = match parse_u32(offset_str) {
        Some(offset) => offset,
        None => {
            return Err(FsError::OutOfRange);
        },
    };
    let key = open_key(filename);
    proof {
        lemma_find_name(open_files.records(), key@, 0);
    }
    match open_files.get_file_mut(key.as_str()) {
        None => Err(FsError::NotOpen),
        Some(open_file) => {
            if offset > open_file.file_size {
                return Err(FsError::OutOfRange);
            }
            open_file.offset = offset;
            Ok(())
        },
    }
}

/// The size that a read asks for, cut so that the offset after it still
/// fits in 32 bits.
pub open spec fn read_size(offset: u32, size: u32) -> u32 {
    if size <= u32::MAX - offset {
        size
    } else {
        (u32::MAX - offset) as u32
    }
}

/// The bytes that `read` returns, or why it returns none: the text is no
/// number (`OutOfRange`), no file of that name is open (`NotOpen`), the
/// file is open for writing only (`ModeConflict`), or the chain or the data
/// cannot be read.
pub open spec fn read_result(
    fat32: &FAT32,
    image: Seq<u8>,
    name: Seq<u8>,
    text: Seq<u8>,
    table: &OpenFiles,
) -> Result<Seq<u8>, FsError> {
    match parse_decimal(text) {
        None => Err(FsError::OutOfRange),
        Some(size) => if !table.is_open(key_text(name)) {
            Err(FsError::NotOpen)
        } else {
            let record = table.records()[table.index_of(key_text(name))];
            if !record.mode.can_read() {
                Err(FsError::ModeConflict)
            } else {
                match fat32.chain_of(image, record.first_cluster) {
                    Err(e) => Err(e),
                    Ok(chain) => fat32.file_data(
                        image,
                        chain,
                        record.offset as int,
                        read_size(record.offset, size) as int,
                    ),
                }
            }
        },
    }
}

/// Reads up to `size_str` bytes from an open file at its offset and moves
/// the offset behind them. Fewer bytes come back where the chain of the
/// file ends first.
pub fn read(
    image: &[u8],
    fat32: &FAT32,
    filename: &str,
    size_str: &str,
    open_files: &mut OpenFiles,
) -> (r: Result<Vec<u8>, FsError>)
    requires
        fat32.wf(),
        fat32.holds_data(),
        old(open_files).wf(),
    ensures
        final(open_files).wf(),
        match read_result(
            fat32,
            image@,
            str_bytes(filename),
            str_bytes(size_str),
            old(open_files),
        ) {
            Ok(bytes) => r.is_ok() && r.unwrap()@ == bytes && final(open_files).records() == old(open_files).records().update(
                old(open_files).index_of(key_text(str_bytes(filename))),
                at_offset(
                    old(open_files).records()[old(open_files).index_of(
                        key_text(str_bytes(filename)),
                    )],
                    (old(open_files).records()[old(open_files).index_of(
                        key_text(str_bytes(filename)),
                    )].offset + bytes.len()) as u32,
                ),
            ),
            Err(e) => r == Err::<Vec<u8>, FsError>(e) && final(open_files).records() == old(open_files).records(),
        },
{
    let size = match parse_u32(size_str) {
        Some(size) => size,
        None => {
            return Err(FsError::OutOfRange);
        },
    };
    let key = open_key(filename);
    proof {
        lemma_find_name(open_files.records(), key@, 0);
    }
    match open_files.get_file_mut(key.as_str()) {
        None => Err(FsError::NotOpen),
        Some(open_file) => {
            if open_file.mode == FileMode::WriteOnly {
                return Err(FsError::ModeConflict);
            }
            let cluster_chain = fat32.get_cluster_chain(image, open_file.first_cluster)?;
            let wanted = if size <= u32::MAX - open_file.offset {
                size
            } else {
                u32::MAX - open_file.offset
            };
            let data = fat32.read_file_data(
                image,
                cluster_chain.as_slice(),
                open_file.offset,
                wanted,
            )?;
            open_file.offset = open_file.offset + data.len() as u32;
            Ok(data)
        },
    }
}

/// An image and the record of one open file together with the outcome of
/// the write that left them.
pub struct WriteOutcome {
    pub image: Seq<u8>,
    pub record: OpenFileView,
    pub result: Result<(), FsError>,
}

/// What `write` comes to for the record of an open file. The data is `text`
/// without its surrounding quotation marks.
///
/// The write is refused, and nothing changes, where the file is open for
/// reading only (`ModeConflict`), where the end of the data would lie
/// beyond 32 bits (`OutOfRange`), or where the chain of the file cannot be
/// followed. Else the data is written at the record's offset. A file that
/// had no cluster gets the first cluster of its new chain recorded in its
/// directory entry, which is found by name. The offset moves behind the
/// data, and where it passes the size, the size follows and is recorded in
/// the directory entry, which is found by its first cluster.
pub open spec fn write_outcome(
    fat32: &FAT32,
    image: Seq<u8>,
    current: u32,
    name: Seq<u8>,
    text: Seq<u8>,
    record: OpenFileView,
) -> WriteOutcome {
    let data = unquoted(text);
    if !record.mode.can_write() {
        WriteOutcome { image, record, result: Err(FsError::ModeConflict) }
    } else if record.offset + data.len() > u32::MAX {
        WriteOutcome { image, record, result: Err(FsError::OutOfRange) }
    } else {
        match fat32.chain_of(image, record.first_cluster) {
            Err(e) => WriteOutcome { image, record, result: Err(e) },
            Ok(chain) => {
                let written = fat32.written(image, chain, record.offset as int, data);
                if written.result is Err {
                    WriteOutcome { image: written.image, record, result: written.result }
                } else {
                    linked_outcome(fat32, written.image, current, name, data, record, written.chain)
                }
            },
        }
    }
}

/// The second half of a write: the data is stored, and the directory entry
/// and the record are brought up to date.
pub open spec fn linked_outcome(
    fat32: &FAT32,
    image: Seq<u8>,
    current: u32,
    name: Seq<u8>,
    data: Seq<u8>,
    record: OpenFileView,
    chain: Seq<u32>,
) -> WriteOutcome {
    if record.first_cluster == 0 && chain.len() > 0 {
        match fat32.locate(image, current, ProbeView::Name(short_name(name))) {
            Err(e) => WriteOutcome { image, record, result: Err(e) },
            Ok(pos) => sized_outcome(
                fat32,
                FAT32::with_first_cluster(image, pos, chain[0]),
                current,
                data,
                OpenFileView { first_cluster: chain[0], ..record },
            ),
        }
    } else {
        sized_outcome(fat32, image, current, data, record)
    }
}

/// The last step of a write: the offset moves behind the data, and the
/// size follows it where the offset has passed it.
pub open spec fn sized_outcome(
    fat32: &FAT32,
    image: Seq<u8>,
    current: u32,
    data: Seq<u8>,
    record: OpenFileView,
) -> WriteOutcome {
    let end = (record.offset + data.len()) as u32;
    if end > record.file_size {
        let grown = OpenFileView { offset: end, file_size: end, ..record };
        match fat32.locate(image, current, ProbeView::FirstCluster(record.first_cluster)) {
            Err(e) => WriteOutcome { image, record: grown, result: Err(e) },
            Ok(pos) => WriteOutcome {
                image: crate::image::patched(image, pos + 28, crate::image::u32_bytes(end)),
                record: grown,
                result: Ok(()),
            },
        }
    } else {
        WriteOutcome { image, record: at_offset(record, end), result: Ok(()) }
    }
}

/// Writes a text to an open file at its offset. One quotation mark at each
/// end of the text is taken off first.
pub fn write(
    image: &mut Vec<u8>,
    fat32: &FAT32,
    current_dir_cluster: u32,
    filename: &str,
    string: &str,
    open_files: &mut OpenFiles,
) -> (r: Result<(), FsError>)
    requires
        fat32.wf(),
        fat32.holds_data(),
        old(open_files).wf(),
    ensures
        final(open_files).wf(),
        !old(open_files).is_open(key_text(str_bytes(filename))) ==> r == Err::<(), FsError>(
            FsError::NotOpen,
        ) && final(image)@ == old(image)@ && final(open_files).records() == old(open_files).records(),
        old(open_files).is_open(key_text(str_bytes(filename))) ==> {
            let i = old(open_files).index_of(key_text(str_bytes(filename)));
            let outcome = write_outcome(
                fat32,
                old(image)@,
                current_dir_cluster,
                str_bytes(filename),
                str_bytes(string),
                old(open_files).records()[i],
            );
            &&& r == outcome.result
            &&& final(image)@ == outcome.image
            &&& final(open_files).records() == old(open_files).records().update(i, outcome.record)
        },
{
    let data = strip_quotes(string.as_bytes());
    let key = open_key(filename);
    let stored = stored_name(filename);
    proof {
        lemma_find_name(open_files.records(), key@, 0);
    }
    match open_files.get_file_mut(key.as_str()) {
        None => Err(FsError::NotOpen),
        Some(open_file) => {
            if open_file.mode == FileMode::ReadOnly {
                return Err(FsError::ModeConflict);
            }
            if data.len() > (u32::MAX - open_file.offset) as usize {
                return Err(FsError::OutOfRange);
            }
            let mut cluster_chain = match fat32.get_cluster_chain(
                image.as_slice(),
                open_file.first_cluster,
            ) {
                Ok(chain) => chain,
                Err(e) => {
                    return Err(e);
                },
            };
            let stored_data = fat32.write_file_data(
                image,
                &mut cluster_chain,
                open_file.offset,
                data,
            );
            if stored_data.is_err() {
                return stored_data;
            }
            if open_file.first_cluster == 0 && cluster_chain.len() > 0 {
                let linked = fat32.update_first_cluster(
                    image,
                    current_dir_cluster,
                    &stored,
                    cluster_chain[0],
                );
                if linked.is_err() {
                    return linked;
                }
                open_file.first_cluster = cluster_chain[0];
            }
            open_file.offset = open_file.offset + data.len() as u32;
            if open_file.offset > open_file.file_size {
                open_file.file_size = open_file.offset;
                fat32.update_file_size(
                    image,
                    open_file.first_cluster,
                    current_dir_cluster,
                    open_file.file_size,
                )?;
            }
            Ok(())
        },
    }
}

/// The image and outcome after the entry with the stored name `name` has
/// been marked deleted in the directory at `current` and the chain from
/// `first_cluster` has been freed.
pub open spec fn removed(
    fat32: &FAT32,
    image: Seq<u8>,
    current: u32,
    name: Seq<u8>,
    first_cluster: u32,
) -> Outcome {
    match fat32.locate(image, current, ProbeView::Name(name)) {
        Err(e) => Outcome { image, result: Err(e) },
        Ok(pos) => {
            let marked = crate::image::patched(image, pos, seq![crate::directory::SLOT_DELETED]);
            let freed = fat32.freed(marked, first_cluster, crate::table::chain_limit(marked));
            Outcome {
                image: freed.0,
                result: if freed.1 {
                    Ok(())
                } else {
                    Err(FsError::Io)
                },
            }
        },
    }
}

/// The image and outcome of `rename`. The guards come in this order: one
/// of the names is `.` or `..` (`SpecialName`), the directory cannot be
/// listed, the new name is listed (`AlreadyExists`), the file is open
/// (`FileOpen`), the old name is not listed (`NotFound`). Then the stored
/// name of the entry is rewritten.
pub open spec fn rename_outcome(
    fat32: &FAT32,
    image: Seq<u8>,
    current: u32,
    name: Seq<u8>,
    new_name: Seq<u8>,
    table: &OpenFiles,
) -> Outcome {
    if is_special(name) || is_special(new_name) {
        Outcome { image, result: Err(FsError::SpecialName) }
    } else {
        match fat32.listing(image, current) {
            Err(e) => Outcome { image, result: Err(e) },
            Ok(entries) => if has_name(entries, short_name(new_name)) {
                Outcome { image, result: Err(FsError::AlreadyExists) }
            } else if table.is_open(key_text(name)) {
                Outcome { image, result: Err(FsError::FileOpen) }
            } else if !has_name(entries, short_name(name)) {
                Outcome { image, result: Err(FsError::NotFound) }
            } else {
                match fat32.locate(image, current, ProbeView::Name(short_name(name))) {
                    Err(e) => Outcome { image, result: Err(e) },
                    Ok(pos) => Outcome {
                        image: crate::image::patched(image, pos, short_name(new_name)),
                        result: Ok(()),
                    },
                }
            },
        }
    }
}

/// The image and outcome of `rm`. The first entry with the name decides:
/// none is `NotFound`, a directory is `IsDirectory`, an open file is
/// `FileOpen`. Else the entry is marked deleted and its chain is freed.
pub open spec fn rm_outcome(
    fat32: &FAT32,
    image: Seq<u8>,
    current: u32,
    name: Seq<u8>,
    table: &OpenFiles,
) -> Outcome {
    match fat32.listing(image, current) {
        Err(e) => Outcome { image, result: Err(e) },
        Ok(entries) => {
            let i = first_named(entries, short_name(name), 0);
            if i >= entries.len() {
                Outcome { image, result: Err(FsError::NotFound) }
            } else if entries[i].is_directory() {
                Outcome { image, result: Err(FsError::IsDirectory) }
            } else if table.is_open(key_text(name)) {
                Outcome { image, result: Err(FsError::FileOpen) }
            } else {
                removed(fat32, image, current, short_name(name), entries[i].first_cluster)
            }
        },
    }
}

/// The image and outcome of `rmdir`. The name is `.` or `..`
/// (`SpecialName`); else the first entry with the name decides: none is
/// `NotFound`, a file is `NotDirectory`, a directory that lists anything
/// but `.` and `..` is `NotEmpty`. Else the entry is marked deleted and the
/// chain of the directory is freed.
pub open spec fn rmdir_outcome(fat32: &FAT32, image: Seq<u8>, current: u32, name: Seq<u8>) -> Outcome {
    if is_special(name) {
        Outcome { image, result: Err(FsError::SpecialName) }
    } else {
        match fat32.listing(image, current) {
            Err(e) => Outcome { image, result: Err(e) },
            Ok(entries) => {
                let i = first_named(entries, short_name(name), 0);
                if i >= entries.len() {
                    Outcome { image, result: Err(FsError::NotFound) }
                } else if !entries[i].is_directory() {
                    Outcome { image, result: Err(FsError::NotDirectory) }
                } else {
                    match fat32.listing(image, entries[i].first_cluster) {
                        Err(e) => Outcome { image, result: Err(e) },
                        Ok(inside) => if !only_dot_entries(inside) {
                            Outcome { image, result: Err(FsError::NotEmpty) }
                        } else {
                            removed(
                                fat32,
                                image,
                                current,
                                short_name(name),
                                entries[i].first_cluster,
                            )
                        },
                    }
                }
            },
        }
    }
}

/// Marks an entry deleted and frees its chain.
fn remove_entry(image: &mut Vec<u8>, fat32: &FAT32, current_dir_cluster: u32, entry: &DirectoryEntry) -> (r:
    Result<(), FsError>)
    requires
        fat32.wf(),
    ensures
        final(image)@ == removed(
            fat32,
            old(image)@,
            current_dir_cluster,
            entry.name@,
            entry.first_cluster,
        ).image,
        r == removed(
            fat32,
            old(image)@,
            current_dir_cluster,
            entry.name@,
            entry.first_cluster,
        ).result,
{
    fat32.remove_directory_entry(image, current_dir_cluster, entry)?;
    fat32.free_cluster_chain(image, entry.first_cluster)
}

/// Whether every entry is `.` or `..`.
pub fn all_dot_entries(entries: &Vec<DirectoryEntry>) -> (r: bool)
    ensures
        r == only_dot_entries(entry_views(entries@)),
{
    let dot = crate::names::dot_entry_name(1);
    let dotdot = crate::names::dot_entry_name(2);
    let mut i: usize = 0;
    while i < entries.len()
        invariant
            i <= entries@.len(),
            dot@ == dot_name(1),
            dotdot@ == dot_name(2),
            forall|j: int| 0 <= j < i ==> is_dot_entry((#[trigger] entry_views(entries@)[j]).name),
        decreases entries@.len() - i,
    {
        if !bytes_eq(entries[i].name.as_slice(), dot.as_slice()) && !bytes_eq(
            entries[i].name.as_slice(),
            dotdot.as_slice(),
        ) {
            assert(!is_dot_entry(entry_views(entries@)[i as int].name));
            return false;
        }
        i += 1;
    }
    true
}

/// Gives an entry of the current directory another name.
pub fn rename(
    image: &mut Vec<u8>,
    fat32: &FAT32,
    current_dir_cluster: u32,
    filename: &str,
    new_filename: &str,
    open_files: &OpenFiles,
) -> (r: Result<(), FsError>)
    requires
        fat32.wf(),
    ensures
        final(image)@ == rename_outcome(
            fat32,
            old(image)@,
            current_dir_cluster,
            str_bytes(filename),
            str_bytes(new_filename),
            open_files,
        ).image,
        r == rename_outcome(
            fat32,
            old(image)@,
            current_dir_cluster,
            str_bytes(filename),
            str_bytes(new_filename),
            open_files,
        ).result,
{
    if is_special_name(filename) || is_special_name(new_filename) {
        return Err(FsError::SpecialName);
    }
    let entries = fat32.read_directory_entries(image.as_slice(), current_dir_cluster)?;
    let stored_new = stored_name(new_filename);
    if find_named(&entries, &stored_new) < entries.len() {
        return Err(FsError::AlreadyExists);
    }
    let key = open_key(filename);
    if open_files.is_file_open(key.as_str()) {
        return Err(FsError::FileOpen);
    }
    let stored = stored_name(filename);
    let i = find_named(&entries, &stored);
    if i >= entries.len() {
        return Err(FsError::NotFound);
    }
    fat32.update_entry_name(image, current_dir_cluster, &entries[i], new_filename)
}

/// Removes a file of the current directory and frees its clusters.
pub fn rm(
    image: &mut Vec<u8>,
    fat32: &FAT32,
    current_dir_cluster: u32,
    filename: &str,
    open_files: &OpenFiles,
) -> (r: Result<(), FsError>)
    requires
        fat32.wf(),
    ensures
        final(image)@ == rm_outcome(
            fat32,
            old(image)@,
            current_dir_cluster,
            str_bytes(filename),
            open_files,
        ).image,
        r == rm_outcome(
            fat32,
            old(image)@,
            current_dir_cluster,
            str_bytes(filename),
            open_files,
        ).result,
{
    let entries = fat32.read_directory_entries(image.as_slice(), current_dir_cluster)?;
    let stored = stored_name(filename);
    let i = find_named(&entries, &stored);
    if i >= entries.len() {
        return Err(FsError::NotFound);
    }
    if entries[i].is_directory() {
        return Err(FsError::IsDirectory);
    }
    let key = open_key(filename);
    if open_files.is_file_open(key.as_str()) {
        return Err(FsError::FileOpen);
    }
    remove_entry(image, fat32, current_dir_cluster, &entries[i])
}

/// Removes an empty directory of the current directory and frees its
/// clusters.
pub fn rmdir(
    image: &mut Vec<u8>,
    fat32: &FAT32,
    current_dir_cluster: u32,
    dirname: &str,
    open_files: &OpenFiles,
) -> (r: Result<(), FsError>)
    requires
        fat32.wf(),
    ensures
        final(image)@ == rmdir_outcome(
            fat32,
            old(image)@,
            current_dir_cluster,
            str_bytes(dirname),
        ).image,
        r == rmdir_outcome(fat32, old(image)@, current_dir_cluster, str_bytes(dirname)).result,
{
    if is_special_name(dirname) {
        return Err(FsError::SpecialName);
    }
    let entries = fat32.read_directory_entries(image.as_slice(), current_dir_cluster)?;
    let stored = stored_name(dirname);
    let i = find_named(&entries, &stored);
    if i >= entries.len() {
        return Err(FsError::NotFound);
    }
    if !entries[i].is_directory() {
        return Err(FsError::NotDirectory);
    }
    let inside = fat32.read_directory_entries(image.as_slice(), entries[i].first_cluster)?;
    if !all_dot_entries(&inside) {
        return Err(FsError::NotEmpty);
    }
    remove_entry(image, fat32, current_dir_cluster, &entries[i])
}

} // verus!
