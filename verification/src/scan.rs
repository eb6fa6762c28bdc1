//! Walking a directory: a cursor that steps through the slot stream, the
//! scan that finds one slot, and the listing of a directory's entries.

use vstd::prelude::*;
use crate::error::FsError;
use crate::fat32::FAT32;
use crate::image::{in_bounds, read_slice};
use crate::directory::{
    DirectoryEntry, Probe, ProbeView, ScanEnd, entry_views, is_live, live_entries, scan_from, slot_at,
    slot_entry, slot_first_cluster, slot_name, ATTR_LONG_NAME, SLOT_DELETED, SLOT_SIZE,
    SLOT_UNUSED,
};
use crate::table::{chain_limit, END_OF_CHAIN};

verus! {

/// A position in the slot stream of a directory: the cluster that the walk
/// is in, the next slot in it, and how many more clusters may be entered.
pub struct DirCursor {
    pub start: u32,
    pub cluster: u32,
    pub slot: u32,
    pub fuel: usize,
    pub passed: Ghost<Seq<u32>>,
    pub base: Ghost<int>,
}

/// What the search for a slot found.
#[derive(Debug, Clone, Copy, PartialEq, Eq, Structural)]
pub enum SlotSearch {
    /// The offset in the image of the slot that the probe halts at.
    Hit(u64),
    /// No such slot; the directory's chain ends with this cluster.
    End(u32),
}

impl DirCursor {
    /// The index in the stream of the slot that comes next.
    pub open spec fn index(&self) -> int {
        self.base@ + self.slot
    }

    /// The cursor stands in the stream of the directory at `self.start`.
    pub open spec fn valid(&self, fs: &FAT32, image: Seq<u8>) -> bool {
        let stream = fs.dir_stream(image, self.start);
        let rest = fs.dir_walk(image, self.cluster, self.fuel as nat);
        &&& self.cluster >= 2
        &&& 0 < self.fuel <= chain_limit(image)
        &&& 0 <= self.slot <= fs.slots_per_cluster()
        &&& stream.clusters == self.passed@ + rest.clusters
        &&& stream.complete == rest.complete
        &&& self.base@ == fs.chain_slots(self.passed@).len()
    }
}

impl FAT32 {
    /// The slots of two runs of clusters, one after the other.
    pub proof fn lemma_chain_slots_concat(&self, a: Seq<u32>, b: Seq<u32>)
        ensures
            self.chain_slots(a + b) == self.chain_slots(a) + self.chain_slots(b),
        decreases b.len(),
    {
        if b.len() == 0 {
            assert(a + b =~= a);
            assert(self.chain_slots(a) + self.chain_slots(b) =~= self.chain_slots(a));
        } else {
            assert((a + b).drop_last() =~= a + b.drop_last());
            assert((a + b).last() == b.last());
            self.lemma_chain_slots_concat(a, b.drop_last());
            assert((self.chain_slots(a) + self.chain_slots(b.drop_last())) + self.cluster_slots(
                b.last(),
            ) =~= self.chain_slots(a) + (self.chain_slots(b.drop_last()) + self.cluster_slots(
                b.last(),
            )));
        }
    }

    /// The slots of a single cluster, seen as a chain.
    pub proof fn lemma_chain_slots_one(&self, cluster: u32)
        ensures
            self.chain_slots(seq![cluster]) == self.cluster_slots(cluster),
    {
        let one = seq![cluster];
        assert(one.drop_last() =~= Seq::<u32>::empty());
        assert(one.last() == cluster);
        assert(self.chain_slots(one.drop_last()) =~= Seq::<int>::empty());
        assert(Seq::<int>::empty() + self.cluster_slots(cluster) =~= self.cluster_slots(cluster));
    }

    /// Where the slots of the cursor's cluster stand in the stream.
    pub proof fn lemma_cursor(&self, image: Seq<u8>, cur: DirCursor)
        requires
            self.wf(),
            cur.valid(self, image),
        ensures
            0 <= self.slots_per_cluster() <= 0x8_0000,
            cur.base@ + self.slots_per_cluster() <= self.dir_stream(image, cur.start).slots.len(),
            forall|j: int|
                0 <= j < self.slots_per_cluster() ==> #[trigger] self.dir_stream(
                    image,
                    cur.start,
                ).slots[cur.base@ + j] == self.cluster_offset(cur.cluster) + SLOT_SIZE * j,
            self.dir_walk(image, cur.cluster, cur.fuel as nat).clusters.len() == 1
                ==> self.dir_stream(image, cur.start).slots.len() == cur.base@
                + self.slots_per_cluster(),
            self.dir_walk(image, cur.cluster, cur.fuel as nat).clusters.len() >= 1,
            self.dir_walk(image, cur.cluster, cur.fuel as nat).clusters[0] == cur.cluster,
    {
        self.lemma_bounds();
        let stream = self.dir_stream(image, cur.start);
        let rest = self.dir_walk(image, cur.cluster, cur.fuel as nat);
        let tail = rest.clusters.skip(1);
        assert(rest.clusters =~= seq![cur.cluster] + tail);
        self.lemma_chain_slots_concat(cur.passed@, rest.clusters);
        self.lemma_chain_slots_concat(seq![cur.cluster], tail);
        self.lemma_chain_slots_one(cur.cluster);
        assert(stream.slots == self.chain_slots(cur.passed@) + (self.cluster_slots(cur.cluster)
            + self.chain_slots(tail)));
        if rest.clusters.len() == 1 {
            assert(tail =~= Seq::<u32>::empty());
        }
    }

    /// Puts a cursor at the first slot of the directory at `start`.
    pub fn cursor(&self, image: &[u8], start: u32) -> (cur: DirCursor)
        requires
            self.wf(),
            start >= 2,
        ensures
            cur.valid(self, image@),
            cur.start == start,
            cur.index() == 0,
    {
        let cur = DirCursor {
            start,
            cluster: start,
            slot: 0,
            fuel: image.len() / 4 + 1,
            passed: Ghost(Seq::empty()),
            base: Ghost(0),
        };
        proof {
            self.lemma_bounds();
            let rest = self.dir_walk(image@, start, chain_limit(image@));
            assert(Seq::<u32>::empty() + rest.clusters =~= rest.clusters);
        }
        cur
    }

    /// Steps to the next slot of the stream and returns its offset in the
    /// image. At the end of a complete chain there is none; where the chain
    /// breaks off, the step fails.
    pub fn next_slot(&self, image: &[u8], cur: &mut DirCursor) -> (r: Result<Option<u64>, FsError>)
        requires
            self.wf(),
            old(cur).valid(self, image@),
        ensures
            final(cur).start == old(cur).start,
            old(cur).index() <= self.dir_stream(image@, old(cur).start).slots.len(),
            match r {
                Ok(Some(pos)) => {
                    &&& old(cur).index() < self.dir_stream(image@, old(cur).start).slots.len()
                    &&& pos == self.dir_stream(image@, old(cur).start).slots[old(cur).index()]
                    &&& final(cur).valid(self, image@)
                    &&& final(cur).index() == old(cur).index() + 1
                },
                Ok(None) => {
                    &&& old(cur).index() == self.dir_stream(image@, old(cur).start).slots.len()
                    &&& self.dir_stream(image@, old(cur).start).complete
                    &&& self.dir_stream(image@, old(cur).start).clusters.len() > 0
                    &&& final(cur).cluster == self.dir_stream(
                        image@,
                        old(cur).start,
                    ).clusters.last()
                },
                Err(e) => {
                    &&& e == FsError::Io
                    &&& old(cur).index() == self.dir_stream(image@, old(cur).start).slots.len()
                    &&& !self.dir_stream(image@, old(cur).start).complete
                },
            },
    {
        proof {
            self.lemma_bounds();
        }
        let per_cluster: u32 = (self.bytes_per_cluster() + (SLOT_SIZE as u32 - 1)) / (
        SLOT_SIZE as u32);
        loop
            invariant
                self.wf(),
                per_cluster == self.slots_per_cluster(),
                cur.valid(self, image@),
                cur.start == old(cur).start,
                cur.index() == old(cur).index(),
            decreases cur.fuel,
        {
            proof {
                self.lemma_bounds();
                self.lemma_cursor(image@, *cur);
            }
            if cur.slot < per_cluster {
                let pos = self.cluster_to_offset(cur.cluster) + (SLOT_SIZE as u64) * (
                cur.slot as u64);
                cur.slot = cur.slot + 1;
                return Ok(Some(pos));
            }
            let ghost rest = self.dir_walk(image@, cur.cluster, cur.fuel as nat);
            let next = self.get_next_cluster(image, cur.cluster)?;
            if next >= END_OF_CHAIN {
                proof {
                    assert((cur.passed@ + rest.clusters).last() == cur.cluster);
                }
                return Ok(None);
            }
            let ghost after = self.dir_walk(image@, next, (cur.fuel - 1) as nat);
            assert(rest.clusters == seq![cur.cluster] + after.clusters);
            if next < 2 || cur.fuel == 1 {
                assert(rest.clusters =~= seq![cur.cluster]);
                return Err(FsError::Io);
            }
            proof {
                let passed = cur.passed@.push(cur.cluster);
                assert(cur.passed@ + (seq![cur.cluster] + after.clusters) =~= passed
                    + after.clusters);
                assert(passed.drop_last() =~= cur.passed@);
                assert(passed.last() == cur.cluster);
                assert(self.chain_slots(passed) == self.chain_slots(cur.passed@)
                    + self.cluster_slots(cur.cluster));
                cur.passed@ = passed;
                cur.base@ = cur.base@ + per_cluster;
            }
            cur.cluster = next;
            cur.slot = 0;
            cur.fuel = cur.fuel - 1;
        }
    }
}

/// Whether two byte slices hold the same bytes.
pub fn bytes_eq(a: &[u8], b: &[u8]) -> (r: bool)
    ensures
        r == (a@ == b@),
{
    if a.len() != b.len() {
        return false;
    }
    let n = a.len();
    let mut i: usize = 0;
    while i < n
        invariant
            i <= n,
            n == a@.len(),
            n == b@.len(),
            forall|j: int| 0 <= j < i ==> a@[j] == b@[j],
        decreases n - i,
    {
        if a[i] != b[i] {
            return false;
        }
        i += 1;
    }
    assert(a@ =~= b@);
    true
}

/// Puts the first cluster of a slot together from its two halves.
pub fn first_cluster_of(slot: &[u8]) -> (r: u32)
    requires
        slot@.len() == SLOT_SIZE,
    ensures
        r == slot_first_cluster(slot@),
{
    let high: u32 = slot[20] as u32 + slot[21] as u32 * 0x100;
    let low: u32 = slot[26] as u32 + slot[27] as u32 * 0x100;
    high * 0x1_0000 + low
}

/// Whether a slot holds a short entry.
pub fn slot_is_live(slot: &[u8]) -> (r: bool)
    requires
        slot@.len() == SLOT_SIZE,
    ensures
        r == is_live(slot@),
{
    slot[0] != SLOT_UNUSED && slot[0] != SLOT_DELETED && slot[11] != ATTR_LONG_NAME
}

/// Reads the entry that a slot holds.
pub fn decode_entry(slot: &[u8]) -> (entry: DirectoryEntry)
    requires
        slot@.len() == SLOT_SIZE,
    ensures
        entry@ == slot_entry(slot@),
{
    let mut name = [0u8; 11];
    let mut i: usize = 0;
    while i < 11
        invariant
            i <= 11,
            slot@.len() == SLOT_SIZE,
            forall|j: int| 0 <= j < i ==> name@[j] == slot@[j],
        decreases 11 - i,
    {
        name[i] = slot[i];
        i += 1;
    }
    assert(name@ =~= slot_name(slot@));
    let file_size: u32 = slot[28] as u32 + slot[29] as u32 * 0x100 + slot[30] as u32 * 0x1_0000
        + slot[31] as u32 * 0x100_0000;
    DirectoryEntry { name, attr: slot[11], first_cluster: first_cluster_of(slot), file_size }
}

impl Probe {
    /// Whether the scan halts at this slot.
    pub fn halts_at(&self, slot: &[u8]) -> (r: bool)
        requires
            slot@.len() == SLOT_SIZE,
        ensures
            r == self@.halts(slot@),
    {
        if slot[0] == SLOT_UNUSED {
            return true;
        }
        match self {
            Probe::End => false,
            Probe::Vacant => slot[0] == SLOT_DELETED,
            Probe::Name(name) => {
                slot_is_live(slot) && bytes_eq(
                    vstd::slice::slice_subrange(slot, 0, 11),
                    name.as_slice(),
                )
            },
            Probe::FirstCluster(cluster) => slot_is_live(slot) && first_cluster_of(slot)
                == *cluster,
        }
    }
}

impl FAT32 {
    /// A scan that has passed `from` slots without halting stops where the
    /// scan of the rest stops.
    pub proof fn lemma_scan_step(image: Seq<u8>, slots: Seq<int>, probe: ProbeView, from: int)
        requires
            0 <= from < slots.len(),
            in_bounds(image, slots[from], SLOT_SIZE as int),
            !probe.halts(slot_at(image, slots[from])),
        ensures
            scan_from(image, slots, probe, from) == scan_from(image, slots, probe, from + 1),
    {
    }

    /// Scans the directory at `start` for the first slot that `probe` halts
    /// at.
    pub fn find_slot(&self, image: &[u8], start: u32, probe: Probe) -> (r: Result<
        SlotSearch,
        FsError,
    >)
        requires
            self.wf(),
        ensures
            match self.find(image@, start, probe@) {
                ScanEnd::At(pos) => r == Ok::<SlotSearch, FsError>(SlotSearch::Hit(pos as u64))
                    && pos + SLOT_SIZE <= usize::MAX && in_bounds(image@, pos, SLOT_SIZE as int),
                ScanEnd::Ended => r == Ok::<SlotSearch, FsError>(
                    SlotSearch::End(self.dir_stream(image@, start).clusters.last()),
                ) && self.dir_stream(image@, start).clusters.len() > 0,
                ScanEnd::Broken => r == Err::<SlotSearch, FsError>(FsError::Io),
            },
    {
        if start < 2 {
            return Err(FsError::Io);
        }
        let mut cur = self.cursor(image, start);
        let ghost stream = self.dir_stream(image@, start);
        let total = image.len();
        loop
            invariant
                self.wf(),
                total == image@.len(),
                cur.start == start,
                cur.valid(self, image@),
                stream == self.dir_stream(image@, start),
                cur.index() <= stream.slots.len(),
                scan_from(image@, stream.slots, probe@, 0) == scan_from(
                    image@,
                    stream.slots,
                    probe@,
                    cur.index(),
                ),
            decreases stream.slots.len() - cur.index(),
        {
            let ghost at = cur.index();
            match self.next_slot(image, &mut cur)? {
                None => {
                    return Ok(SlotSearch::End(cur.cluster));
                },
                Some(pos) => {
                    let slot = read_slice(image, pos, SLOT_SIZE)?;
                    if probe.halts_at(slot) {
                        return Ok(SlotSearch::Hit(pos));
                    }
                    proof {
                        Self::lemma_scan_step(image@, stream.slots, probe@, at);
                    }
                },
            }
        }
    }

    /// Lists the short entries of the directory at `cluster`, in the order
    /// of their slots. Deleted slots and pieces of long names are passed
    /// over; the listing stops at the first unused slot or at the end of the
    /// chain.
    pub fn read_directory_entries(&self, image: &[u8], cluster: u32) -> (r: Result<
        Vec<DirectoryEntry>,
        FsError,
    >)
        requires
            self.wf(),
        ensures
            match self.listing(image@, cluster) {
                Ok(entries) => r.is_ok() && entry_views(r.unwrap()@) == entries,
                Err(e) => r == Err::<Vec<DirectoryEntry>, FsError>(e),
            },
    {
        let mut entries: Vec<DirectoryEntry> = Vec::new();
        if cluster < 2 {
            return Err(FsError::Io);
        }
        let mut cur = self.cursor(image, cluster);
        let ghost stream = self.dir_stream(image@, cluster);
        assert(entry_views(entries@) =~= live_entries(image@, stream.slots, 0));
        loop
            invariant
                self.wf(),
                cur.start == cluster,
                cur.valid(self, image@),
                stream == self.dir_stream(image@, cluster),
                cur.index() <= stream.slots.len(),
                scan_from(image@, stream.slots, ProbeView::End, 0) == scan_from(
                    image@,
                    stream.slots,
                    ProbeView::End,
                    cur.index(),
                ),
                entry_views(entries@) == live_entries(image@, stream.slots, cur.index()),
            decreases stream.slots.len() - cur.index(),
        {
            let ghost at = cur.index();
            match self.next_slot(image, &mut cur)? {
                None => {
                    return Ok(entries);
                },
                Some(pos) => {
                    let slot = read_slice(image, pos, SLOT_SIZE)?;
                    if slot[0] == SLOT_UNUSED {
                        return Ok(entries);
                    }
                    proof {
                        Self::lemma_scan_step(image@, stream.slots, ProbeView::End, at);
                    }
                    if slot_is_live(slot) {
                        let entry = decode_entry(slot);
                        let ghost before = entries@;
                        entries.push(entry);
                        assert(entry_views(entries@) =~= entry_views(before).push(entry@));
                    }
                },
            }
        }
    }
}

} // verus!
