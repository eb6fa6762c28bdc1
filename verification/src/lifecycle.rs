//! Creating files and directories: a file is a new entry without clusters; a
//! directory is a fresh cluster that begins with `.` and `..`, linked into
//! its parent by a new entry.

use vstd::prelude::*;
use crate::error::FsError;
use crate::fat32::FAT32;
use crate::image::{in_bounds, patched, write_slice};
use crate::directory::{entry_bytes, ATTR_DIRECTORY, SLOT_SIZE};
use crate::edit::{fresh_entry, zeros, Outcome};
use crate::names::{dot_name, str_bytes};
use crate::table::{FreeScan, END_OF_CHAIN, FIRST_DATA_CLUSTER};

verus! {

impl FAT32 {
    /// The content of the first cluster of a new directory: the entry `.`
    /// for the directory itself, the entry `..` for its parent, and zeros
    /// up to the end of the cluster.
    pub open spec fn dot_block(&self, dir: u32, parent: u32) -> Seq<u8> {
        entry_bytes(dot_name(1), ATTR_DIRECTORY, dir, 0) + entry_bytes(
            dot_name(2),
            ATTR_DIRECTORY,
            parent,
            0,
        ) + zeros(self.cluster_size() - 2 * SLOT_SIZE)
    }

    /// The image and outcome after the cluster `dir` has been set up as an
    /// empty directory below `parent`. Nothing is written where the cluster
    /// does not lie inside the image.
    pub open spec fn initialized(&self, image: Seq<u8>, dir: u32, parent: u32) -> Outcome {
        if in_bounds(image, self.cluster_offset(dir), self.cluster_size()) {
            Outcome {
                image: patched(image, self.cluster_offset(dir), self.dot_block(dir, parent)),
                result: Ok(()),
            }
        } else {
            Outcome { image, result: Err(FsError::Io) }
        }
    }

    /// The image and outcome after a directory named `name` has been
    /// created in the directory at `parent`: a cluster is allocated, set up
    /// with `.` and `..`, and entered in the parent.
    pub open spec fn directory_created(&self, image: Seq<u8>, parent: u32, name: Seq<u8>) -> Outcome {
        match self.free_scan(image, FIRST_DATA_CLUSTER) {
            FreeScan::Full => Outcome { image, result: Err(FsError::NoSpace) },
            FreeScan::Unreadable => Outcome { image, result: Err(FsError::Io) },
            FreeScan::Free(fresh) => {
                let set_up = self.initialized(
                    self.with_next(image, fresh, END_OF_CHAIN),
                    fresh,
                    parent,
                );
                if set_up.result.is_ok() {
                    self.added(set_up.image, parent, fresh_entry(name, fresh, true))
                } else {
                    set_up
                }
            },
        }
    }

    /// Sets the cluster `dir_cluster` up as an empty directory: the entries
    /// `.` and `..` in its first two slots, zeros in the rest.
    pub fn initialize_directory(&self, image: &mut Vec<u8>, dir_cluster: u32, parent_cluster: u32) -> (r:
        Result<(), FsError>)
        requires
            self.wf(),
            self.holds_directories(),
            dir_cluster >= 2,
        ensures
            final(image)@ == self.initialized(old(image)@, dir_cluster, parent_cluster).image,
            r == self.initialized(old(image)@, dir_cluster, parent_cluster).result,
    {
        proof {
            self.lemma_bounds();
        }
        let dot = crate::names::dot_entry_name(1);
        let dotdot = crate::names::dot_entry_name(2);
        let dot_entry = Self::stored_entry(&dot, ATTR_DIRECTORY, dir_cluster, 0);
        let dotdot_entry = Self::stored_entry(&dotdot, ATTR_DIRECTORY, parent_cluster, 0);
        let mut block: Vec<u8> = Vec::new();
        block.extend_from_slice(dot_entry.as_slice());
        block.extend_from_slice(dotdot_entry.as_slice());
        let remaining_size = self.bytes_per_cluster() - 2 * (SLOT_SIZE as u32);
        let zero_buffer = vec![0u8; remaining_size as usize];
        block.extend_from_slice(zero_buffer.as_slice());
        proof {
            assert(zero_buffer@ =~= zeros(self.cluster_size() - 2 * SLOT_SIZE));
            assert(block@ =~= self.dot_block(dir_cluster, parent_cluster));
        }
        write_slice(image, self.cluster_to_offset(dir_cluster), block.as_slice())
    }

    /// Creates an empty file named `filename` in the directory at
    /// `parent_cluster`. An empty file has no cluster.
    pub fn create_file(&self, image: &mut Vec<u8>, parent_cluster: u32, filename: &str) -> (r:
        Result<(), FsError>)
        requires
            self.wf(),
        ensures
            final(image)@ == self.added(
                old(image)@,
                parent_cluster,
                fresh_entry(str_bytes(filename), 0, false),
            ).image,
            r == self.added(
                old(image)@,
                parent_cluster,
                fresh_entry(str_bytes(filename), 0, false),
            ).result,
    {
        self.add_directory_entry(image, parent_cluster, filename, 0, false)
    }

    /// Creates a directory named `dirname` in the directory at
    /// `parent_cluster`.
    pub fn create_directory(&self, image: &mut Vec<u8>, parent_cluster: u32, dirname: &str) -> (r:
        Result<(), FsError>)
        requires
            self.wf(),
            self.holds_directories(),
        ensures
            final(image)@ == self.directory_created(
                old(image)@,
                parent_cluster,
                str_bytes(dirname),
            ).image,
            r == self.directory_created(old(image)@, parent_cluster, str_bytes(dirname)).result,
    {
        let new_dir_cluster = self.allocate_cluster(image)?;
        proof {
            self.lemma_free_scan(old(image)@, FIRST_DATA_CLUSTER);
        }
        self.initialize_directory(image, new_dir_cluster, parent_cluster)?;
        self.add_directory_entry(image, parent_cluster, dirname, new_dir_cluster, true)
    }
}

} // verus!
