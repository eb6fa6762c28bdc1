//! Changing a directory in place: writing a new entry into the first slot
//! that can take one, renaming an entry, marking it deleted, and recording a
//! file's size and first cluster.

use vstd::prelude::*;
use crate::error::FsError;
use crate::fat32::FAT32;
use crate::image::{in_bounds, patched, u16_bytes, u32_bytes, write_slice, write_u32};
use crate::directory::{
    DirectoryEntry, Probe, ProbeView, ScanEnd, entry_bytes, ATTR_ARCHIVE, ATTR_DIRECTORY, SLOT_DELETED,
    SLOT_SIZE, SLOT_UNUSED,
};
use crate::names::{short_name, str_bytes};
use crate::scan::SlotSearch;
use crate::table::{chain_limit, FreeScan, END_OF_CHAIN, FIRST_DATA_CLUSTER};

verus! {

/// An image together with the outcome of the operation that left it.
pub struct Outcome {
    pub image: Seq<u8>,
    pub result: Result<(), FsError>,
}

/// `len` zero bytes.
pub open spec fn zeros(len: int) -> Seq<u8> {
    Seq::new(len as nat, |i: int| 0u8)
}

/// The 32 bytes of the entry that a new file or directory gets: its stored
/// name, the attribute of its kind, its first cluster and a size of zero.
pub open spec fn fresh_entry(name: Seq<u8>, first_cluster: u32, is_directory: bool) -> Seq<u8> {
    entry_bytes(
        short_name(name),
        if is_directory {
            ATTR_DIRECTORY
        } else {
            ATTR_ARCHIVE
        },
        first_cluster,
        0,
    )
}

impl FAT32 {
    /// The offset of the short entry that `probe` finds in the directory at
    /// `dir`. `NotFound` where the scan comes to the end of the directory
    /// first, an I/O error where it breaks off.
    pub open spec fn locate(&self, image: Seq<u8>, dir: u32, probe: ProbeView) -> Result<int, FsError> {
        match self.find(image, dir, probe) {
            ScanEnd::At(pos) => if image[pos] == SLOT_UNUSED {
                Err(FsError::NotFound)
            } else {
                Ok(pos)
            },
            ScanEnd::Ended => Err(FsError::NotFound),
            ScanEnd::Broken => Err(FsError::Io),
        }
    }

    /// The image and outcome after a directory whose chain ends in `last`
    /// has been extended by a fresh cluster that holds `entry` in its first
    /// slot: the cluster is allocated, linked behind `last`, filled with
    /// zeros and then written. Where the cluster, or the slot at its start,
    /// does not lie inside the image, the steps before stay done.
    pub open spec fn extended(&self, image: Seq<u8>, last: u32, entry: Seq<u8>) -> Outcome {
        match self.free_scan(image, FIRST_DATA_CLUSTER) {
            FreeScan::Full => Outcome { image, result: Err(FsError::NoSpace) },
            FreeScan::Unreadable => Outcome { image, result: Err(FsError::Io) },
            FreeScan::Free(fresh) => {
                let linked = self.with_next(
                    self.with_next(image, fresh, END_OF_CHAIN),
                    last,
                    fresh,
                );
                let blank = patched(
                    linked,
                    self.cluster_offset(fresh),
                    zeros(self.cluster_size()),
                );
                if !in_bounds(linked, self.cluster_offset(fresh), self.cluster_size()) {
                    Outcome { image: linked, result: Err(FsError::Io) }
                } else if !in_bounds(blank, self.cluster_offset(fresh), entry.len() as int) {
                    Outcome { image: blank, result: Err(FsError::Io) }
                } else {
                    Outcome {
                        image: patched(blank, self.cluster_offset(fresh), entry),
                        result: Ok(()),
                    }
                }
            },
        }
    }

    /// The image and outcome after the 32 bytes `entry` have been added to
    /// the directory at `dir`: they go into the first slot that is unused
    /// or deleted, and into a fresh cluster where the chain has none.
    pub open spec fn added(&self, image: Seq<u8>, dir: u32, entry: Seq<u8>) -> Outcome {
        match self.find(image, dir, ProbeView::Vacant) {
            ScanEnd::At(pos) => Outcome { image: patched(image, pos, entry), result: Ok(()) },
            ScanEnd::Ended => self.extended(
                image,
                self.dir_stream(image, dir).clusters.last(),
                entry,
            ),
            ScanEnd::Broken => Outcome { image, result: Err(FsError::Io) },
        }
    }

    /// The two halves of a first cluster as they are stored in an entry:
    /// the high half at byte 20, the low half at byte 26.
    pub open spec fn with_first_cluster(image: Seq<u8>, pos: int, first_cluster: u32) -> Seq<u8> {
        patched(
            patched(image, pos + 20, u16_bytes((first_cluster / 0x1_0000) as u16)),
            pos + 26,
            u16_bytes((first_cluster % 0x1_0000) as u16),
        )
    }

    /// A complete directory walk ends in a cluster whose FAT entry can be
    /// read and holds an end mark.
    pub proof fn lemma_dir_walk_last(&self, image: Seq<u8>, start: u32, fuel: nat)
        requires
            self.dir_walk(image, start, fuel).complete,
        ensures
            self.dir_walk(image, start, fuel).clusters.len() > 0,
            self.fat_readable(image, self.dir_walk(image, start, fuel).clusters.last()),
            self.next_of(image, self.dir_walk(image, start, fuel).clusters.last())
                >= END_OF_CHAIN,
            self.dir_walk(image, start, fuel).clusters.last() >= 2,
        decreases fuel,
    {
        if start >= 2 && fuel > 0 && self.fat_readable(image, start) && self.next_of(image, start)
            < END_OF_CHAIN {
            self.lemma_dir_walk_last(image, self.next_of(image, start), (fuel - 1) as nat);
        }
    }

    /// Builds the 32 bytes of a fresh directory entry from the stored form
    /// of its name.
    pub fn stored_entry(name: &[u8; 11], attr: u8, first_cluster: u32, file_size: u32) -> (entry:
        [u8; 32])
        ensures
            entry@ == entry_bytes(name@, attr, first_cluster, file_size),
    {
        let mut entry = [0u8; 32];
        let mut i: usize = 0;
        while i < 11
            invariant
                i <= 11,
                forall|j: int| 0 <= j < i ==> entry@[j] == name@[j],
                forall|j: int| i <= j < 32 ==> entry@[j] == 0,
            decreases 11 - i,
        {
            entry[i] = name[i];
            i += 1;
        }
        entry[11] = attr;
        let high: u32 = first_cluster / 0x1_0000;
        let low: u32 = first_cluster % 0x1_0000;
        entry[20] = (high % 0x100) as u8;
        entry[21] = (high / 0x100) as u8;
        entry[26] = (low % 0x100) as u8;
        entry[27] = (low / 0x100) as u8;
        entry[28] = (file_size % 0x100) as u8;
        entry[29] = (file_size / 0x100 % 0x100) as u8;
        entry[30] = (file_size / 0x1_0000 % 0x100) as u8;
        entry[31] = (file_size / 0x100_0000) as u8;
        assert(entry@ =~= entry_bytes(name@, attr, first_cluster, file_size));
        entry
    }

    /// Builds the 32 bytes of a fresh directory entry.
    pub fn create_directory_entry(
        &self,
        name: &str,
        attr: u8,
        first_cluster: u32,
        file_size: u32,
    ) -> (entry: [u8; 32])
        ensures
            entry@ == entry_bytes(short_name(str_bytes(name)), attr, first_cluster, file_size),
    {
        let name_bytes = self.format_filename(name);
        Self::stored_entry(&name_bytes, attr, first_cluster, file_size)
    }

    /// Finds the short entry that `probe` describes in the directory at
    /// `dir` and returns the offset of its slot.
    pub fn locate_slot(&self, image: &[u8], dir: u32, probe: Probe) -> (r: Result<u64, FsError>)
        requires
            self.wf(),
        ensures
            match self.locate(image@, dir, probe@) {
                Ok(pos) => r == Ok::<u64, FsError>(pos as u64) && pos + SLOT_SIZE <= usize::MAX
                    && in_bounds(image@, pos, SLOT_SIZE as int),
                Err(e) => r == Err::<u64, FsError>(e),
            },
    {
        match self.find_slot(image, dir, probe)? {
            SlotSearch::Hit(pos) => {
                if image[pos as usize] == SLOT_UNUSED {
                    Err(FsError::NotFound)
                } else {
                    Ok(pos)
                }
            },
            SlotSearch::End(_) => Err(FsError::NotFound),
        }
    }

    /// Adds an entry to the directory at `dir_cluster`. The entry goes into
    /// the first unused or deleted slot; where the chain has none, the
    /// directory grows by one zero-filled cluster, which is allocated and
    /// marked before the old tail is linked to it.
    pub fn add_directory_entry(
        &self,
        image: &mut Vec<u8>,
        dir_cluster: u32,
        name: &str,
        first_cluster: u32,
        is_directory: bool,
    ) -> (r: Result<(), FsError>)
        requires
            self.wf(),
        ensures
            final(image)@ == self.added(
                old(image)@,
                dir_cluster,
                fresh_entry(str_bytes(name), first_cluster, is_directory),
            ).image,
            r == self.added(
                old(image)@,
                dir_cluster,
                fresh_entry(str_bytes(name), first_cluster, is_directory),
            ).result,
    {
        let attr = if is_directory {
            ATTR_DIRECTORY
        } else {
            ATTR_ARCHIVE
        };
        let entry = self.create_directory_entry(name, attr, first_cluster, 0);
        match self.find_slot(image.as_slice(), dir_cluster, Probe::Vacant)? {
            SlotSearch::Hit(pos) => { write_slice(image, pos, entry.as_slice()) },
            SlotSearch::End(last) => {
                proof {
                    self.lemma_dir_walk_last(image@, dir_cluster, chain_limit(image@));
                    self.lemma_bounds();
                }
                let fresh = self.allocate_cluster(image)?;
                proof {
                    self.lemma_free_scan(old(image)@, FIRST_DATA_CLUSTER);
                    self.lemma_with_next(old(image)@, fresh, END_OF_CHAIN);
                }
                self.set_next_cluster(image, last, fresh)?;
                let blank = vec![0u8; self.bytes_per_cluster() as usize];
                assert(blank@ =~= crate::edit::zeros(self.cluster_size()));
                let pos = self.cluster_to_offset(fresh);
                write_slice(image, pos, blank.as_slice())?;
                write_slice(image, pos, entry.as_slice())
            },
        }
    }

    /// Rewrites the stored name of the entry whose name is that of `entry`.
    pub fn update_entry_name(
        &self,
        image: &mut Vec<u8>,
        dir_cluster: u32,
        entry: &DirectoryEntry,
        new_name: &str,
    ) -> (r: Result<(), FsError>)
        requires
            self.wf(),
        ensures
            match self.locate(old(image)@, dir_cluster, ProbeView::Name(entry.name@)) {
                Ok(pos) => r == Ok::<(), FsError>(()) && final(image)@ == patched(
                    old(image)@,
                    pos,
                    short_name(str_bytes(new_name)),
                ),
                Err(e) => r == Err::<(), FsError>(e) && final(image)@ == old(image)@,
            },
    {
        let pos = self.locate_slot(image.as_slice(), dir_cluster, Probe::Name(entry.name))?;
        let name_bytes = self.format_filename(new_name);
        write_slice(image, pos, name_bytes.as_slice())
    }

    /// Marks the entry whose name is that of `entry` as deleted by setting
    /// the first byte of its slot to `0xE5`.
    pub fn remove_directory_entry(
        &self,
        image: &mut Vec<u8>,
        dir_cluster: u32,
        entry: &DirectoryEntry,
    ) -> (r: Result<(), FsError>)
        requires
            self.wf(),
        ensures
            match self.locate(old(image)@, dir_cluster, ProbeView::Name(entry.name@)) {
                Ok(pos) => r == Ok::<(), FsError>(()) && final(image)@ == patched(
                    old(image)@,
                    pos,
                    seq![SLOT_DELETED],
                ),
                Err(e) => r == Err::<(), FsError>(e) && final(image)@ == old(image)@,
            },
    {
        let pos = self.locate_slot(image.as_slice(), dir_cluster, Probe::Name(entry.name))?;
        let mark: [u8; 1] = [SLOT_DELETED];
        assert(mark@ =~= seq![SLOT_DELETED]);
        write_slice(image, pos, mark.as_slice())
    }

    /// Records `new_size` in the entry of the directory at `dir_cluster`
    /// whose first cluster is `first_cluster`.
    pub fn update_file_size(
        &self,
        image: &mut Vec<u8>,
        first_cluster: u32,
        dir_cluster: u32,
        new_size: u32,
    ) -> (r: Result<(), FsError>)
        requires
            self.wf(),
        ensures
            match self.locate(old(image)@, dir_cluster, ProbeView::FirstCluster(first_cluster)) {
                Ok(pos) => r == Ok::<(), FsError>(()) && final(image)@ == patched(
                    old(image)@,
                    pos + 28,
                    u32_bytes(new_size),
                ),
                Err(e) => r == Err::<(), FsError>(e) && final(image)@ == old(image)@,
            },
    {
        let pos = self.locate_slot(
            image.as_slice(),
            dir_cluster,
            Probe::FirstCluster(first_cluster),
        )?;
        write_u32(image, pos + 28, new_size)
    }

    /// Records `first_cluster` in the entry with the stored name `name`. A
    /// file gets its first cluster this way when its first data is written.
    pub fn update_first_cluster(
        &self,
        image: &mut Vec<u8>,
        dir_cluster: u32,
        name: &[u8; 11],
        first_cluster: u32,
    ) -> (r: Result<(), FsError>)
        requires
            self.wf(),
        ensures
            match self.locate(old(image)@, dir_cluster, ProbeView::Name(name@)) {
                Ok(pos) => r == Ok::<(), FsError>(()) && final(image)@ == Self::with_first_cluster(
                    old(image)@,
                    pos,
                    first_cluster,
                ),
                Err(e) => r == Err::<(), FsError>(e) && final(image)@ == old(image)@,
            },
    {
        let pos = self.locate_slot(image.as_slice(), dir_cluster, Probe::Name(*name))?;
        let high: u32 = first_cluster / 0x1_0000;
        let low: u32 = first_cluster % 0x1_0000;
        let high_bytes: [u8; 2] = [(high % 0x100) as u8, (high / 0x100) as u8];
        let low_bytes: [u8; 2] = [(low % 0x100) as u8, (low / 0x100) as u8];
        assert(high_bytes@ =~= u16_bytes((first_cluster / 0x1_0000) as u16));
        assert(low_bytes@ =~= u16_bytes((first_cluster % 0x1_0000) as u16));
        write_slice(image, pos + 20, high_bytes.as_slice())?;
        write_slice(image, pos + 26, low_bytes.as_slice())
    }
}

} // verus!
