//! A FAT32 volume engine that works on a disk image held in memory, with
//! the commands of a small shell on top of it.
//!
//! The image is a plain byte vector. The engine reads and rewrites the boot
//! sector, the file allocation table, directory entries and cluster data in
//! place, and every function states in its contract which bytes it reads
//! and which bytes it leaves behind.
//!
//! The modules, from the bytes upwards:
//!
//! - [`error`]: the kinds of failure.
//! - [`image`]: bounds-checked access to the image and little-endian
//!   integers.
//! - [`fat32`]: the boot sector and the geometry of the volume.
//! - [`table`]: the file allocation table: entries, chains, allocation and
//!   release.
//! - [`names`]: short (8.3) names and the text helpers of the commands.
//! - [`directory`], [`scan`], [`edit`]: directories as streams of slots:
//!   the layout of an entry, listing and searching, and changing entries in
//!   place.
//! - [`file_io`]: reading and writing file data through a cluster chain.
//! - [`lifecycle`]: creating files and directories.
//! - [`open_files`]: the table of open files.
//! - [`commands`], [`shell`]: the commands, and how a command line is read.
//!
//! What is proved of the engine beyond the contracts of its functions:
//!
//! - [`frame`], [`chains`], [`changes`]: what a change to the image leaves
//!   as it was.
//! - [`laws`], [`file_laws`]: what pairs of operations undo or bring back.
//! - [`volume`]: the volume as a whole: what it means that an image holds a
//!   tree of directories and files with their chains and nothing else,
//!   that every command keeps it so, and that what has just been created
//!   can be removed again.

pub mod error;
pub mod image;
pub mod fat32;
pub mod table;
pub mod names;
pub mod directory;
pub mod scan;
pub mod edit;
pub mod file_io;
pub mod lifecycle;
pub mod open_files;
pub mod commands;
pub mod shell;
pub mod frame;
pub mod chains;
pub mod changes;
pub mod laws;
pub mod file_laws;
pub mod volume;
