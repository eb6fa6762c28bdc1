//! The table of open files: at most ten records, each under its own name,
//! with the mode the file was opened in and the offset of the next read or
//! write.

use vstd::prelude::*;
use crate::error::FsError;
use crate::names::str_eq;

verus! {

/// The largest number of files that can be open at once.
pub const MAX_OPEN_FILES: usize = 10;

/// What an open file may be used for.
#[derive(Debug, Clone, Copy, PartialEq, Eq, Structural)]
pub enum FileMode {
    ReadOnly,
    WriteOnly,
    ReadWrite,
}

impl FileMode {
    /// The mode allows reading.
    pub open spec fn can_read(&self) -> bool {
        *self != FileMode::WriteOnly
    }

    /// The mode allows writing.
    pub open spec fn can_write(&self) -> bool {
        *self != FileMode::ReadOnly
    }
}

/// The record of one open file.
#[derive(Debug)]
pub struct OpenFile {
    pub filename: String,
    pub mode: FileMode,
    pub offset: u32,
    pub first_cluster: u32,
    pub file_size: u32,
}

/// The mathematical value of an open-file record.
pub struct OpenFileView {
    pub filename: Seq<char>,
    pub mode: FileMode,
    pub offset: u32,
    pub first_cluster: u32,
    pub file_size: u32,
}

impl View for OpenFile {
    type V = OpenFileView;

    open spec fn view(&self) -> OpenFileView {
        OpenFileView {
            filename: self.filename@,
            mode: self.mode,
            offset: self.offset,
            first_cluster: self.first_cluster,
            file_size: self.file_size,
        }
    }
}

/// The table of open files.
pub struct OpenFiles {
    files: Vec<OpenFile>,
}

/// The index of the first record at or after `from` with the given name; the
/// number of records where there is none.
pub open spec fn find_name(records: Seq<OpenFileView>, name: Seq<char>, from: int) -> int
    decreases records.len() - from,
{
    if from >= records.len() {
        records.len() as int
    } else if records[from].filename == name {
        from
    } else {
        find_name(records, name, from + 1)
    }
}

/// No two records have the same name.
pub open spec fn distinct_names(records: Seq<OpenFileView>) -> bool {
    forall|i: int, j: int|
        0 <= i < j < records.len() ==> (#[trigger] records[i]).filename != (
        #[trigger] records[j]).filename
}

/// The search for a name ends inside the records exactly where a record has
/// that name, and then at the first such record.
pub proof fn lemma_find_name(records: Seq<OpenFileView>, name: Seq<char>, from: int)
    requires
        0 <= from <= records.len(),
    ensures
        from <= find_name(records, name, from) <= records.len(),
        find_name(records, name, from) < records.len() ==> records[find_name(
            records,
            name,
            from,
        )].filename == name,
        forall|i: int|
            from <= i < find_name(records, name, from) ==> (#[trigger] records[i]).filename
                != name,
    decreases records.len() - from,
{
    if from < records.len() && records[from].filename != name {
        lemma_find_name(records, name, from + 1);
    }
}

impl OpenFiles {
    /// The records of the table, in the order in which the files were
    /// opened.
    pub closed spec fn records(&self) -> Seq<OpenFileView> {
        Seq::new(self.files@.len(), |i: int| self.files@[i]@)
    }

    /// The table holds at most ten records, each under a name of its own.
    pub open spec fn wf(&self) -> bool {
        self.records().len() <= MAX_OPEN_FILES && distinct_names(self.records())
    }

    /// The index of the record with the given name; the number of records
    /// where no file of that name is open.
    pub open spec fn index_of(&self, name: Seq<char>) -> int {
        find_name(self.records(), name, 0)
    }

    /// A file of that name is open.
    pub open spec fn is_open(&self, name: Seq<char>) -> bool {
        self.index_of(name) < self.records().len()
    }

    /// An empty table.
    pub fn new() -> (table: OpenFiles)
        ensures
            table.records() == Seq::<OpenFileView>::empty(),
            table.wf(),
    {
        let table = OpenFiles { files: Vec::new() };
        assert(table.records() =~= Seq::<OpenFileView>::empty());
        table
    }

    /// The index of the record with the given name, or the number of
    /// records.
    fn position(&self, filename: &str) -> (i: usize)
        ensures
            i == self.index_of(filename@),
            i <= self.files@.len(),
            self.files@.len() == self.records().len(),
    {
        let mut i: usize = 0;
        while i < self.files.len()
            invariant
                i <= self.files@.len(),
                self.files@.len() == self.records().len(),
                find_name(self.records(), filename@, 0) == find_name(
                    self.records(),
                    filename@,
                    i as int,
                ),
            decreases self.files@.len() - i,
        {
            if str_eq(self.files[i].filename.as_str(), filename) {
                return i;
            }
            i += 1;
        }
        i
    }

    /// Enters a record. The table takes at most ten records (`Capacity`) and
    /// one record per name (`Duplicate`).
    pub fn open_file(&mut self, file: OpenFile) -> (r: Result<(), FsError>)
        requires
            old(self).wf(),
        ensures
            final(self).wf(),
            old(self).records().len() >= MAX_OPEN_FILES ==> r == Err::<(), FsError>(
                FsError::Capacity,
            ) && final(self).records() == old(self).records(),
            old(self).records().len() < MAX_OPEN_FILES && old(self).is_open(file.filename@) ==> r
                == Err::<(), FsError>(FsError::Duplicate) && final(self).records() == old(self).records(),
            old(self).records().len() < MAX_OPEN_FILES && !old(self).is_open(file.filename@) ==> r
                == Ok::<(), FsError>(()) && final(self).records() == old(self).records().push(
                file@,
            ),
    {
        if self.files.len() >= MAX_OPEN_FILES {
            return Err(FsError::Capacity);
        }
        if self.position(file.filename.as_str()) < self.files.len() {
            return Err(FsError::Duplicate);
        }
        proof {
            lemma_find_name(self.records(), file.filename@, 0);
        }
        self.files.push(file);
        proof {
            assert(self.records() =~= old(self).records().push(file@));
        }
        Ok(())
    }

    /// Takes the record with the given name out of the table; the others
    /// keep their order.
    pub fn close_file(&mut self, filename: &str) -> (r: Result<(), FsError>)
        requires
            old(self).wf(),
        ensures
            final(self).wf(),
            old(self).is_open(filename@) ==> r == Ok::<(), FsError>(()) && final(self).records()
                == old(self).records().remove(old(self).index_of(filename@)),
            !old(self).is_open(filename@) ==> r == Err::<(), FsError>(FsError::NotOpen) && final(self).records() == old(self).records(),
    {
        let i = self.position(filename);
        if i >= self.files.len() {
            return Err(FsError::NotOpen);
        }
        self.files.remove(i);
        proof {
            assert(self.records() =~= old(self).records().remove(i as int));
        }
        Ok(())
    }

    /// A handle on the record with the given name, through which its offset
    /// and size can be changed.
    pub fn get_file_mut(&mut self, filename: &str) -> (r: Option<&mut OpenFile>)
        ensures
            old(self).is_open(filename@) ==> r.is_some() && (*r.unwrap())@ == old(self).records()[old(self).index_of(filename@)] && final(self).records() == old(self).records().update(
                old(self).index_of(filename@),
                (*final(r.unwrap()))@,
            ),
            !old(self).is_open(filename@) ==> r.is_none() && final(self).records() == old(self).records(),
    {
        let i = self.position(filename);
        if i < self.files.len() {
            Some(&mut self.files[i])
        } else {
            None
        }
    }

    /// The records of the table, in the order in which the files were
    /// opened.
    pub fn list_open_files(&self) -> (list: Vec<&OpenFile>)
        ensures
            list@.len() == self.records().len(),
            forall|i: int| 0 <= i < list@.len() ==> (#[trigger] list@[i])@ == self.records()[i],
    {
        let mut list: Vec<&OpenFile> = Vec::new();
        let mut i: usize = 0;
        while i < self.files.len()
            invariant
                i <= self.files@.len(),
                list@.len() == i,
                self.files@.len() == self.records().len(),
                forall|j: int| 0 <= j < i ==> (#[trigger] list@[j])@ == self.records()[j],
            decreases self.files@.len() - i,
        {
            list.push(&self.files[i]);
            i += 1;
        }
        list
    }

    /// Whether a file of that name is open.
    pub fn is_file_open(&self, filename: &str) -> (r: bool)
        ensures
            r == self.is_open(filename@),
    {
        self.position(filename) < self.files.len()
    }
}

} // verus!
