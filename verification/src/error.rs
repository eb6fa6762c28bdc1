//! The kinds of failure that the engine and the commands report.

use vstd::prelude::*;

verus! {

/// Why an operation on the volume or on the open-file table was refused.
#[derive(Debug, Clone, Copy, PartialEq, Eq, Structural)]
pub enum FsError {
    /// The boot sector lacks the signature `0xAA55`, or the number of
    /// clusters cannot be computed from it: it names no sector per cluster,
    /// or more sectors in front of the data than the volume has.
    InvalidImage,
    /// A read or write fell outside the image, or a cluster chain could not
    /// be followed to its end.
    Io,
    /// No entry with the wanted name, or the wanted first cluster, exists.
    NotFound,
    /// An entry with that name already exists in the directory.
    AlreadyExists,
    /// The directory still holds entries other than `.` and `..`.
    NotEmpty,
    /// The entry is a directory where a file was wanted.
    IsDirectory,
    /// The entry is a file where a directory was wanted.
    NotDirectory,
    /// The file is in the open-file table.
    FileOpen,
    /// The file allocation table has no free cluster left.
    NoSpace,
    /// The open-file table is full.
    Capacity,
    /// The file is already in the open-file table.
    Duplicate,
    /// The file is not in the open-file table.
    NotOpen,
    /// The names `.` and `..` can be neither renamed nor removed, and
    /// nothing can be renamed to them.
    SpecialName,
    /// The mode flag is not one of `-r`, `-w`, `-rw`, `-wr`.
    BadMode,
    /// The file was opened in a mode that forbids the operation.
    ModeConflict,
    /// An offset lies beyond the end of the file, or a number did not parse.
    OutOfRange,
}

} // verus!
