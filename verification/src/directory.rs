//! Directories as streams of 32-byte slots: the layout of one entry, the
//! slots that a directory's cluster chain holds, and the scans that list a
//! directory or find one slot in it.

use vstd::prelude::*;
use crate::error::FsError;
use crate::fat32::FAT32;
use crate::image::{in_bounds, u16_at, u32_at, u16_bytes, u32_bytes, read_slice};
use crate::names::{short_name, str_bytes};
use crate::table::{chain_limit, ChainWalk, END_OF_CHAIN};

verus! {

/// The number of bytes in a directory slot.
pub const SLOT_SIZE: usize = 32;

/// The first byte of a slot that was never used; it ends the directory.
pub const SLOT_UNUSED: u8 = 0x00;

/// The first byte of a slot whose entry was deleted.
pub const SLOT_DELETED: u8 = 0xE5;

/// The attribute bit of a directory.
pub const ATTR_DIRECTORY: u8 = 0x10;

/// The attribute of a file that this engine creates.
pub const ATTR_ARCHIVE: u8 = 0x20;

/// The attribute that marks a piece of a long file name.
pub const ATTR_LONG_NAME: u8 = 0x0F;

/// A short (8.3) directory entry as callers see it.
#[derive(Debug, Clone, Copy, PartialEq, Eq)]
pub struct DirectoryEntry {
    /// The 11 bytes of the stored name.
    pub name: [u8; 11],
    pub attr: u8,
    pub first_cluster: u32,
    pub file_size: u32,
}

/// The mathematical value of a directory entry.
pub struct EntryView {
    pub name: Seq<u8>,
    pub attr: u8,
    pub first_cluster: u32,
    pub file_size: u32,
}

impl View for DirectoryEntry {
    type V = EntryView;

    open spec fn view(&self) -> EntryView {
        EntryView {
            name: self.name@,
            attr: self.attr,
            first_cluster: self.first_cluster,
            file_size: self.file_size,
        }
    }
}

impl EntryView {
    /// The entry describes a directory.
    pub open spec fn is_directory(&self) -> bool {
        self.attr & ATTR_DIRECTORY != 0
    }
}

impl DirectoryEntry {
    /// Whether the entry describes a directory.
    pub fn is_directory(&self) -> (r: bool)
        ensures
            r == self@.is_directory(),
    {
        self.attr & ATTR_DIRECTORY != 0
    }

    /// Whether the entry describes a file.
    pub fn is_file(&self) -> (r: bool)
        ensures
            r == !self@.is_directory(),
    {
        !self.is_directory()
    }
}

/// The views of a sequence of entries.
pub open spec fn entry_views(entries: Seq<DirectoryEntry>) -> Seq<EntryView> {
    Seq::new(entries.len(), |i: int| entries[i]@)
}

/// The 32 bytes of the slot at `pos`.
pub open spec fn slot_at(image: Seq<u8>, pos: int) -> Seq<u8> {
    image.subrange(pos, pos + SLOT_SIZE)
}

/// The slot holds a short entry: it is in use, not deleted, and no piece of
/// a long file name.
pub open spec fn is_live(slot: Seq<u8>) -> bool {
    slot[0] != SLOT_UNUSED && slot[0] != SLOT_DELETED && slot[11] != ATTR_LONG_NAME
}

/// The stored name of a slot.
pub open spec fn slot_name(slot: Seq<u8>) -> Seq<u8> {
    slot.subrange(0, 11)
}

/// The first cluster of a slot, put together from its two 16-bit halves.
pub open spec fn slot_first_cluster(slot: Seq<u8>) -> u32 {
    (u16_at(slot, 20) * 0x1_0000 + u16_at(slot, 26)) as u32
}

/// The entry that a slot holds.
pub open spec fn slot_entry(slot: Seq<u8>) -> EntryView {
    EntryView {
        name: slot_name(slot),
        attr: slot[11],
        first_cluster: slot_first_cluster(slot),
        file_size: u32_at(slot, 28),
    }
}

/// The 32 bytes of a fresh entry: the name, the attribute, the first
/// cluster in two halves, the size, and zero everywhere else.
pub open spec fn entry_bytes(name: Seq<u8>, attr: u8, first_cluster: u32, file_size: u32) -> Seq<
    u8,
> {
    Seq::new(
        SLOT_SIZE as nat,
        |i: int|
            if i < 11 {
                name[i]
            } else if i == 11 {
                attr
            } else if 20 <= i < 22 {
                u16_bytes((first_cluster / 0x1_0000) as u16)[i - 20]
            } else if 26 <= i < 28 {
                u16_bytes((first_cluster % 0x1_0000) as u16)[i - 26]
            } else if 28 <= i < 32 {
                u32_bytes(file_size)[i - 28]
            } else {
                0u8
            },
    )
}

/// What a scan of a directory looks for. Every scan also halts at the slot
/// that ends the directory.
#[derive(Debug, Clone, Copy)]
pub enum Probe {
    /// Nothing but the end of the directory.
    End,
    /// A slot that can take a new entry: unused or deleted.
    Vacant,
    /// The short entry with this stored name.
    Name([u8; 11]),
    /// The short entry with this first cluster.
    FirstCluster(u32),
}

/// The mathematical value of a probe.
pub enum ProbeView {
    End,
    Vacant,
    Name(Seq<u8>),
    FirstCluster(u32),
}

impl View for Probe {
    type V = ProbeView;

    open spec fn view(&self) -> ProbeView {
        match *self {
            Probe::End => ProbeView::End,
            Probe::Vacant => ProbeView::Vacant,
            Probe::Name(name) => ProbeView::Name(name@),
            Probe::FirstCluster(cluster) => ProbeView::FirstCluster(cluster),
        }
    }
}

impl ProbeView {
    /// The scan halts at this slot.
    pub open spec fn halts(&self, slot: Seq<u8>) -> bool {
        slot[0] == SLOT_UNUSED || match *self {
            ProbeView::End => false,
            ProbeView::Vacant => slot[0] == SLOT_DELETED,
            ProbeView::Name(name) => is_live(slot) && slot_name(slot) == name,
            ProbeView::FirstCluster(cluster) => is_live(slot) && slot_first_cluster(slot)
                == cluster,
        }
    }
}

/// The slots of a directory in the order of its cluster chain, and whether
/// the chain could be followed to its end mark.
pub struct DirStream {
    pub clusters: Seq<u32>,
    pub slots: Seq<int>,
    pub complete: bool,
}

/// Where a scan of a directory stops.
pub enum ScanEnd {
    /// At the slot with this offset in the image, which the probe halts at.
    At(int),
    /// At the end of a complete chain, with no slot that the probe halts at.
    Ended,
    /// At a slot or a FAT entry that could not be read.
    Broken,
}

/// The index of the first slot at or after `from` that lies outside the
/// image or that the probe halts at; the number of slots where there is
/// none.
pub open spec fn scan_from(image: Seq<u8>, slots: Seq<int>, probe: ProbeView, from: int) -> int
    decreases slots.len() - from,
{
    if from >= slots.len() {
        slots.len() as int
    } else if !in_bounds(image, slots[from], SLOT_SIZE as int) || probe.halts(
        slot_at(image, slots[from]),
    ) {
        from
    } else {
        scan_from(image, slots, probe, from + 1)
    }
}

/// The short entries among the first `upto` slots, in order.
pub open spec fn live_entries(image: Seq<u8>, slots: Seq<int>, upto: int) -> Seq<EntryView>
    decreases upto,
{
    if upto <= 0 {
        Seq::empty()
    } else {
        let before = live_entries(image, slots, upto - 1);
        let slot = slot_at(image, slots[upto - 1]);
        if is_live(slot) {
            before.push(slot_entry(slot))
        } else {
            before
        }
    }
}

impl FAT32 {
    /// The number of slots that the engine visits in one cluster: one every
    /// 32 bytes from the start of the cluster.
    pub open spec fn slots_per_cluster(&self) -> int {
        (self.cluster_size() + SLOT_SIZE - 1) / (SLOT_SIZE as int)
    }

    /// The offsets of the slots of one cluster.
    pub open spec fn cluster_slots(&self, cluster: u32) -> Seq<int> {
        Seq::new(
            self.slots_per_cluster() as nat,
            |j: int| self.cluster_offset(cluster) + SLOT_SIZE * j,
        )
    }

    /// The offsets of the slots of a sequence of clusters.
    pub open spec fn chain_slots(&self, clusters: Seq<u32>) -> Seq<int>
        decreases clusters.len(),
    {
        if clusters.len() == 0 {
            Seq::empty()
        } else {
            self.chain_slots(clusters.drop_last()) + self.cluster_slots(clusters.last())
        }
    }

    /// The clusters of the directory that starts at `start`, followed for at
    /// most `fuel` clusters. A directory's chain goes on until an end mark;
    /// the walk breaks off at a cluster number below 2, at a FAT entry
    /// outside the image, or when the fuel runs out.
    pub open spec fn dir_walk(&self, image: Seq<u8>, start: u32, fuel: nat) -> ChainWalk
        decreases fuel,
    {
        if start < 2 || fuel == 0 {
            ChainWalk { clusters: Seq::empty(), complete: false }
        } else if !self.fat_readable(image, start) {
            ChainWalk { clusters: seq![start], complete: false }
        } else if self.next_of(image, start) >= END_OF_CHAIN {
            ChainWalk { clusters: seq![start], complete: true }
        } else {
            let rest = self.dir_walk(image, self.next_of(image, start), (fuel - 1) as nat);
            ChainWalk { clusters: seq![start] + rest.clusters, complete: rest.complete }
        }
    }

    /// The slot stream of the directory that starts at `start`.
    pub open spec fn dir_stream(&self, image: Seq<u8>, start: u32) -> DirStream {
        let walk = self.dir_walk(image, start, chain_limit(image));
        DirStream {
            clusters: walk.clusters,
            slots: self.chain_slots(walk.clusters),
            complete: walk.complete,
        }
    }

    /// Where the scan of the directory at `start` for `probe` stops.
    pub open spec fn find(&self, image: Seq<u8>, start: u32, probe: ProbeView) -> ScanEnd {
        let stream = self.dir_stream(image, start);
        let t = scan_from(image, stream.slots, probe, 0);
        if t < stream.slots.len() {
            if in_bounds(image, stream.slots[t], SLOT_SIZE as int) {
                ScanEnd::At(stream.slots[t])
            } else {
                ScanEnd::Broken
            }
        } else if stream.complete {
            ScanEnd::Ended
        } else {
            ScanEnd::Broken
        }
    }

    /// The entries that the directory at `start` lists: the short entries
    /// before the slot that ends it, or before the end of its chain. An I/O
    /// error where the scan meets a slot or a FAT entry outside the image
    /// first.
    pub open spec fn listing(&self, image: Seq<u8>, start: u32) -> Result<Seq<EntryView>, FsError> {
        let stream = self.dir_stream(image, start);
        if self.find(image, start, ProbeView::End) is Broken {
            Err(FsError::Io)
        } else {
            Ok(live_entries(image, stream.slots, scan_from(image, stream.slots, ProbeView::End, 0)))
        }
    }
}

} // verus!
