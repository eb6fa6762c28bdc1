//! What a change to the image leaves as it was: FAT entries, cluster chains
//! and directories depend on a few bytes only, and a write elsewhere does
//! not touch them.

use vstd::prelude::*;
use crate::directory::{
    live_entries, scan_from, slot_at, DirStream, EntryView, ProbeView, ScanEnd, SLOT_SIZE,
};
use crate::fat32::FAT32;
use crate::image::{in_bounds, patched};
use crate::table::{chain_limit, ChainWalk, END_OF_CHAIN};

verus! {

/// Two images hold the same bytes in the range of `len` bytes at `pos`, as
/// far as the range lies inside them.
pub open spec fn agree(a: Seq<u8>, b: Seq<u8>, pos: int, len: int) -> bool {
    forall|i: int| pos <= i < pos + len && 0 <= i < a.len() ==> a[i] == b[i]
}

/// The ranges of `n` bytes at `p` and of `m` bytes at `q` share no byte.
pub open spec fn apart(p: int, n: int, q: int, m: int) -> bool {
    p + n <= q || q + m <= p
}

/// A write leaves every range that it does not meet as it was.
pub proof fn lemma_patched_apart(image: Seq<u8>, p: int, data: Seq<u8>, q: int, m: int)
    requires
        apart(p, data.len() as int, q, m),
    ensures
        agree(image, patched(image, p, data), q, m),
        in_bounds(image, q, m) ==> patched(image, p, data).subrange(q, q + m) == image.subrange(
            q,
            q + m,
        ),
{
    if in_bounds(image, q, m) {
        assert(patched(image, p, data).subrange(q, q + m) =~= image.subrange(q, q + m));
    }
}

impl FAT32 {
    /// The geometry is that of a well-made volume: a cluster has room for
    /// the first two entries of a directory, the slots of a cluster tile
    /// it, there is a FAT, it has an entry for every cluster that the
    /// allocator considers, and every cluster number stays below the
    /// end-of-chain marks.
    pub open spec fn sound(&self) -> bool {
        &&& self.wf()
        &&& self.holds_directories()
        &&& self.total_clusters <= crate::fat32::MAX_CLUSTERS
        &&& self.cluster_size() % (SLOT_SIZE as int) == 0
        &&& self.boot_sector.num_fats >= 1
        &&& 4 * self.total_clusters <= self.boot_sector.fat_size_32
            * self.boot_sector.bytes_per_sector
    }

    /// Whether the geometry is that of a well-made volume.
    pub fn is_sound(&self) -> (r: bool)
        requires
            self.wf(),
        ensures
            r == self.sound(),
    {
        proof {
            self.lemma_bounds();
            crate::image::lemma_mul_bound(
                self.boot_sector.fat_size_32 as int,
                self.boot_sector.bytes_per_sector as int,
                0xFFFF_FFFF,
                0xFFFF,
            );
        }
        let size = self.bytes_per_cluster();
        let table_bytes: u64 = self.boot_sector.fat_size_32 as u64
            * self.boot_sector.bytes_per_sector as u64;
        size >= 64 && self.total_clusters <= crate::fat32::MAX_CLUSTERS && size % 32 == 0
            && self.boot_sector.num_fats >= 1 && 4 * (self.total_clusters as u64) <= table_bytes
    }

    /// The FAT entry of `cluster` lies in front of the data region.
    pub open spec fn in_table(&self, cluster: u32) -> bool {
        self.fat_pos(cluster) + 4 <= self.data_region_offset
    }

    /// Every cluster of the sequence has its FAT entry in front of the data
    /// region.
    pub open spec fn all_in_table(&self, clusters: Seq<u32>) -> bool {
        forall|i: int| 0 <= i < clusters.len() ==> self.in_table(#[trigger] clusters[i])
    }

    /// Two images record the same successor for every cluster of the
    /// sequence.
    pub open spec fn same_links(&self, a: Seq<u8>, b: Seq<u8>, clusters: Seq<u32>) -> bool {
        forall|i: int|
            0 <= i < clusters.len() ==> agree(a, b, self.fat_pos(#[trigger] clusters[i]), 4)
    }

    /// Equal bytes in a FAT entry give the same successor.
    pub proof fn lemma_next_of_agree(&self, a: Seq<u8>, b: Seq<u8>, cluster: u32)
        requires
            a.len() == b.len(),
            agree(a, b, self.fat_pos(cluster), 4),
        ensures
            self.fat_readable(a, cluster) == self.fat_readable(b, cluster),
            self.fat_readable(a, cluster) ==> self.next_of(a, cluster) == self.next_of(b, cluster),
    {
        if self.fat_readable(a, cluster) {
            let p = self.fat_pos(cluster);
            assert(a[p] == b[p]);
            assert(a[p + 1] == b[p + 1]);
            assert(a[p + 2] == b[p + 2]);
            assert(a[p + 3] == b[p + 3]);
        }
    }

    /// In a sound geometry the entries of the clusters that the allocator
    /// considers lie in front of the data region.
    pub proof fn lemma_allocatable_in_table(&self, cluster: u32)
        requires
            self.sound(),
            cluster < self.total_clusters,
        ensures
            self.in_table(cluster),
    {
        self.lemma_bounds();
        let bytes = self.boot_sector.fat_size_32 * self.boot_sector.bytes_per_sector;
        let fats = self.boot_sector.num_fats as int;
        assert(self.boot_sector.num_fats * self.boot_sector.fat_size_32
            * self.boot_sector.bytes_per_sector == fats * bytes) by (nonlinear_arith)
            requires
                fats == self.boot_sector.num_fats,
                bytes == self.boot_sector.fat_size_32 * self.boot_sector.bytes_per_sector,
        ;
        assert(0 <= bytes) by (nonlinear_arith)
            requires
                bytes == self.boot_sector.fat_size_32 * self.boot_sector.bytes_per_sector,
        ;
        assert(fats * bytes >= bytes) by (nonlinear_arith)
            requires
                fats >= 1,
                bytes >= 0,
        ;
    }
}

/// The offset is that of a slot in the data region: it lies a multiple of
/// 32 bytes behind the start of the region.
pub open spec fn aligned(fs: &FAT32, pos: int) -> bool {
    pos >= fs.data_region_offset && (pos - fs.data_region_offset) % (SLOT_SIZE as int) == 0
}

/// Two slots of the data region are the same slot or share no byte.
pub proof fn lemma_aligned_apart(fs: &FAT32, p: int, q: int)
    requires
        aligned(fs, p),
        aligned(fs, q),
        p != q,
    ensures
        apart(p, SLOT_SIZE as int, q, SLOT_SIZE as int),
{
}

impl FAT32 {
    /// Every slot of a cluster numbered from 2 lies in the data region, on a
    /// multiple of 32 bytes.
    pub proof fn lemma_cluster_slots_aligned(&self, cluster: u32, j: int)
        requires
            self.sound(),
            cluster >= 2,
            0 <= j < self.slots_per_cluster(),
        ensures
            aligned(self, self.cluster_slots(cluster)[j]),
            self.cluster_slots(cluster)[j] + SLOT_SIZE <= self.cluster_offset(cluster)
                + self.cluster_size(),
            self.cluster_offset(cluster) <= self.cluster_slots(cluster)[j],
    {
        self.lemma_bounds();
        let size = self.cluster_size();
        let per = size / (SLOT_SIZE as int);
        let k = (cluster - 2) as int;
        assert(size == (SLOT_SIZE as int) * per);
        assert(k * size == (SLOT_SIZE as int) * (k * per)) by (nonlinear_arith)
            requires
                size == (SLOT_SIZE as int) * per,
        ;
        assert(k * per >= 0) by (nonlinear_arith)
            requires
                k >= 0,
                per >= 0,
        ;
        let m = k * per + j;
        assert(self.cluster_slots(cluster)[j] - self.data_region_offset == (SLOT_SIZE as int) * m);
        vstd::arithmetic::div_mod::lemma_fundamental_div_mod_converse(
            (SLOT_SIZE as int) * m,
            SLOT_SIZE as int,
            m,
            0,
        );
    }

    /// Every cluster of a directory walk is numbered from 2, and every
    /// cluster but the last has a FAT entry that can be read and names the
    /// next one.
    pub proof fn lemma_dir_walk_clusters(&self, image: Seq<u8>, start: u32, fuel: nat)
        ensures
            forall|i: int|
                0 <= i < self.dir_walk(image, start, fuel).clusters.len() ==> #[trigger] self.dir_walk(
                    image,
                    start,
                    fuel,
                ).clusters[i] >= 2,
            forall|i: int|
                0 <= i < self.dir_walk(image, start, fuel).clusters.len() - 1
                    ==> self.fat_readable(
                    image,
                    #[trigger] self.dir_walk(image, start, fuel).clusters[i],
                ) && self.next_of(image, self.dir_walk(image, start, fuel).clusters[i])
                    == self.dir_walk(image, start, fuel).clusters[i + 1],
            self.dir_walk(image, start, fuel).clusters.len() <= fuel,
            self.dir_walk(image, start, fuel).clusters.len() > 0 ==> self.dir_walk(
                image,
                start,
                fuel,
            ).clusters[0] == start,
        decreases fuel,
    {
        if start >= 2 && fuel > 0 && self.fat_readable(image, start) && self.next_of(image, start)
            < END_OF_CHAIN {
            let next = self.next_of(image, start);
            self.lemma_dir_walk_clusters(image, next, (fuel - 1) as nat);
            let rest = self.dir_walk(image, next, (fuel - 1) as nat).clusters;
            let all = self.dir_walk(image, start, fuel).clusters;
            assert(all == seq![start] + rest);
            assert forall|i: int| 0 <= i < all.len() implies #[trigger] all[i] >= 2 by {
                if i > 0 {
                    assert(all[i] == rest[i - 1]);
                }
            }
            assert forall|i: int| 0 <= i < all.len() - 1 implies self.fat_readable(
                image,
                #[trigger] all[i],
            ) && self.next_of(image, all[i]) == all[i + 1] by {
                if i > 0 {
                    assert(all[i] == rest[i - 1]);
                    assert(all[i + 1] == rest[i]);
                } else {
                    assert(all[1] == rest[0]);
                }
            }
        }
    }

    /// A directory walk reads only the FAT entries of its own clusters: an
    /// image of the same length that agrees on them gives the same walk.
    pub proof fn lemma_dir_walk_frame(&self, a: Seq<u8>, b: Seq<u8>, start: u32, fuel: nat)
        requires
            a.len() == b.len(),
            self.same_links(a, b, self.dir_walk(a, start, fuel).clusters),
        ensures
            self.dir_walk(b, start, fuel) == self.dir_walk(a, start, fuel),
        decreases fuel,
    {
        if start >= 2 && fuel > 0 {
            let all = self.dir_walk(a, start, fuel).clusters;
            assert(all[0] == start);
            self.lemma_next_of_agree(a, b, start);
            if self.fat_readable(a, start) && self.next_of(a, start) < END_OF_CHAIN {
                let next = self.next_of(a, start);
                let rest = self.dir_walk(a, next, (fuel - 1) as nat).clusters;
                assert(all == seq![start] + rest);
                assert forall|i: int| 0 <= i < rest.len() implies agree(
                    a,
                    b,
                    self.fat_pos(#[trigger] rest[i]),
                    4,
                ) by {
                    assert(all[i + 1] == rest[i]);
                }
                self.lemma_dir_walk_frame(a, b, next, (fuel - 1) as nat);
            }
        }
    }

    /// Every slot of a run of clusters numbered from 2 lies in the data
    /// region, on a multiple of 32 bytes.
    pub proof fn lemma_chain_slots_aligned(&self, clusters: Seq<u32>)
        requires
            self.sound(),
            forall|i: int| 0 <= i < clusters.len() ==> #[trigger] clusters[i] >= 2,
        ensures
            forall|i: int|
                0 <= i < self.chain_slots(clusters).len() ==> aligned(
                    self,
                    #[trigger] self.chain_slots(clusters)[i],
                ),
        decreases clusters.len(),
    {
        if clusters.len() > 0 {
            let front = clusters.drop_last();
            assert forall|i: int| 0 <= i < front.len() implies #[trigger] front[i] >= 2 by {
                assert(front[i] == clusters[i]);
            }
            self.lemma_chain_slots_aligned(front);
            let head = self.chain_slots(front);
            let last = self.cluster_slots(clusters.last());
            assert forall|i: int| 0 <= i < self.chain_slots(clusters).len() implies aligned(
                self,
                #[trigger] self.chain_slots(clusters)[i],
            ) by {
                if i >= head.len() {
                    assert(clusters[clusters.len() - 1] >= 2);
                    self.lemma_cluster_slots_aligned(clusters.last(), i - head.len());
                    assert(self.chain_slots(clusters)[i] == last[i - head.len()]);
                } else {
                    assert(self.chain_slots(clusters)[i] == head[i]);
                }
            }
        }
    }

    /// The slots of a directory's stream lie in the data region, on
    /// multiples of 32 bytes.
    pub proof fn lemma_stream_aligned(&self, image: Seq<u8>, start: u32)
        requires
            self.sound(),
        ensures
            forall|i: int|
                0 <= i < self.dir_stream(image, start).slots.len() ==> aligned(
                    self,
                    #[trigger] self.dir_stream(image, start).slots[i],
                ),
    {
        self.lemma_dir_walk_clusters(image, start, chain_limit(image));
        self.lemma_chain_slots_aligned(self.dir_walk(image, start, chain_limit(image)).clusters);
    }

    /// A write into the data region leaves the stream of a directory as it
    /// was, where the FAT entries of the directory's clusters lie in front
    /// of that region.
    pub proof fn lemma_stream_after_data_write(
        &self,
        image: Seq<u8>,
        start: u32,
        pos: int,
        data: Seq<u8>,
    )
        requires
            self.wf(),
            pos >= self.data_region_offset,
            self.all_in_table(self.dir_stream(image, start).clusters),
        ensures
            self.dir_stream(patched(image, pos, data), start) == self.dir_stream(image, start),
    {
        let after = patched(image, pos, data);
        let clusters = self.dir_walk(image, start, chain_limit(image)).clusters;
        assert forall|i: int| 0 <= i < clusters.len() implies agree(
            image,
            after,
            self.fat_pos(#[trigger] clusters[i]),
            4,
        ) by {
            assert(self.in_table(clusters[i]));
        }
        self.lemma_dir_walk_frame(image, after, start, chain_limit(image));
    }
}

/// The scan stops at slot `i`: the slot lies outside the image or the probe
/// halts at it.
pub open spec fn stops_at(image: Seq<u8>, slots: Seq<int>, probe: ProbeView, i: int) -> bool {
    !in_bounds(image, slots[i], SLOT_SIZE as int) || probe.halts(slot_at(image, slots[i]))
}

/// Where a scan stops, no slot before stopped it.
pub proof fn lemma_scan_first(image: Seq<u8>, slots: Seq<int>, probe: ProbeView, from: int)
    requires
        0 <= from <= slots.len(),
    ensures
        from <= scan_from(image, slots, probe, from) <= slots.len(),
        forall|i: int|
            from <= i < scan_from(image, slots, probe, from) ==> !#[trigger] stops_at(
                image,
                slots,
                probe,
                i,
            ),
        scan_from(image, slots, probe, from) < slots.len() ==> stops_at(
            image,
            slots,
            probe,
            scan_from(image, slots, probe, from),
        ),
    decreases slots.len() - from,
{
    if from < slots.len() && !stops_at(image, slots, probe, from) {
        lemma_scan_first(image, slots, probe, from + 1);
    }
}

/// The first slot that stops a scan is where the scan stops.
pub proof fn lemma_scan_is(image: Seq<u8>, slots: Seq<int>, probe: ProbeView, from: int, t: int)
    requires
        0 <= from <= t <= slots.len(),
        forall|i: int| from <= i < t ==> !#[trigger] stops_at(image, slots, probe, i),
        t < slots.len() ==> stops_at(image, slots, probe, t),
    ensures
        scan_from(image, slots, probe, from) == t,
    decreases t - from,
{
    if from < t {
        assert(!stops_at(image, slots, probe, from));
        lemma_scan_is(image, slots, probe, from + 1, t);
    }
}

/// Two images hold the same bytes in each of the first `upto` slots, as far
/// as the slots lie inside them.
pub open spec fn same_slots(a: Seq<u8>, b: Seq<u8>, slots: Seq<int>, upto: int) -> bool {
    forall|i: int| 0 <= i < upto && i < slots.len() ==> agree(a, b, #[trigger] slots[i], SLOT_SIZE as int)
}

/// A slot that two images agree on is the same slot in both.
pub proof fn lemma_same_slot(a: Seq<u8>, b: Seq<u8>, pos: int)
    requires
        a.len() == b.len(),
        agree(a, b, pos, SLOT_SIZE as int),
    ensures
        in_bounds(a, pos, SLOT_SIZE as int) == in_bounds(b, pos, SLOT_SIZE as int),
        in_bounds(a, pos, SLOT_SIZE as int) ==> slot_at(a, pos) == slot_at(b, pos),
{
    if in_bounds(a, pos, SLOT_SIZE as int) {
        assert(slot_at(a, pos) =~= slot_at(b, pos));
    }
}

/// A scan reads only the slots up to the one where it stops: an image of
/// the same length that agrees on them gives the same scan.
pub proof fn lemma_scan_frame(a: Seq<u8>, b: Seq<u8>, slots: Seq<int>, probe: ProbeView)
    requires
        a.len() == b.len(),
        same_slots(a, b, slots, scan_from(a, slots, probe, 0) + 1),
    ensures
        scan_from(b, slots, probe, 0) == scan_from(a, slots, probe, 0),
{
    let t = scan_from(a, slots, probe, 0);
    lemma_scan_first(a, slots, probe, 0);
    assert forall|i: int| 0 <= i < t implies !#[trigger] stops_at(b, slots, probe, i) by {
        assert(!stops_at(a, slots, probe, i));
        lemma_same_slot(a, b, slots[i]);
    }
    if t < slots.len() {
        lemma_same_slot(a, b, slots[t]);
    }
    lemma_scan_is(b, slots, probe, 0, t);
}

/// The entries of the first `upto` slots are read from those slots only.
pub proof fn lemma_live_entries_frame(a: Seq<u8>, b: Seq<u8>, slots: Seq<int>, upto: int)
    requires
        a.len() == b.len(),
        0 <= upto <= slots.len(),
        same_slots(a, b, slots, upto),
        forall|i: int| 0 <= i < upto ==> in_bounds(a, #[trigger] slots[i], SLOT_SIZE as int),
    ensures
        live_entries(b, slots, upto) == live_entries(a, slots, upto),
    decreases upto,
{
    if upto > 0 {
        lemma_live_entries_frame(a, b, slots, upto - 1);
        lemma_same_slot(a, b, slots[upto - 1]);
    }
}

impl FAT32 {
    /// Two images are the same as far as the directory at `start` goes:
    /// they have the same length and agree on the FAT entries of the
    /// directory's clusters and on its slots.
    pub open spec fn same_directory(&self, a: Seq<u8>, b: Seq<u8>, start: u32) -> bool {
        &&& a.len() == b.len()
        &&& self.same_links(a, b, self.dir_stream(a, start).clusters)
        &&& same_slots(
            a,
            b,
            self.dir_stream(a, start).slots,
            self.dir_stream(a, start).slots.len() as int,
        )
    }

    /// A directory that a change to the image has not touched is found as
    /// it was: the same stream of slots, and every scan of it stops where
    /// it stopped.
    pub proof fn lemma_find_frame(&self, a: Seq<u8>, b: Seq<u8>, start: u32, probe: ProbeView)
        requires
            self.same_directory(a, b, start),
        ensures
            self.dir_stream(b, start) == self.dir_stream(a, start),
            scan_from(b, self.dir_stream(a, start).slots, probe, 0) == scan_from(
                a,
                self.dir_stream(a, start).slots,
                probe,
                0,
            ),
            self.find(b, start, probe) == self.find(a, start, probe),
    {
        self.lemma_dir_walk_frame(a, b, start, chain_limit(a));
        let slots = self.dir_stream(a, start).slots;
        lemma_scan_frame(a, b, slots, probe);
        let t = scan_from(a, slots, probe, 0);
        lemma_scan_first(a, slots, probe, 0);
        if t < slots.len() {
            lemma_same_slot(a, b, slots[t]);
        }
    }

    /// Listing a directory again gives the same entries, whatever has
    /// changed in the image outside the directory's own FAT entries and
    /// slots.
    pub proof fn law_listing_unchanged(&self, a: Seq<u8>, b: Seq<u8>, start: u32)
        requires
            self.same_directory(a, b, start),
        ensures
            self.listing(b, start) == self.listing(a, start),
    {
        self.lemma_find_frame(a, b, start, ProbeView::End);
        let slots = self.dir_stream(a, start).slots;
        let t = scan_from(a, slots, ProbeView::End, 0);
        lemma_scan_first(a, slots, ProbeView::End, 0);
        assert forall|i: int| 0 <= i < t implies in_bounds(a, #[trigger] slots[i], SLOT_SIZE as int) by {
            assert(!stops_at(a, slots, ProbeView::End, i));
        }
        lemma_live_entries_frame(a, b, slots, t);
    }
}

/// Agreement on a range carries over from one pair of images to the next.
pub proof fn lemma_agree_chain(a: Seq<u8>, b: Seq<u8>, c: Seq<u8>, pos: int, len: int)
    requires
        a.len() == b.len(),
        agree(a, b, pos, len),
        agree(b, c, pos, len),
    ensures
        agree(a, c, pos, len),
{
}

impl FAT32 {
    /// The data of two different clusters shares no byte.
    pub proof fn lemma_clusters_apart(&self, c1: u32, c2: u32)
        requires
            self.wf(),
            self.holds_data(),
            c1 >= 2,
            c2 >= 2,
            c1 != c2,
        ensures
            apart(
                self.cluster_offset(c1),
                self.cluster_size(),
                self.cluster_offset(c2),
                self.cluster_size(),
            ),
    {
        self.lemma_bounds();
        let size = self.cluster_size();
        let k1 = (c1 - 2) as int;
        let k2 = (c2 - 2) as int;
        if k1 < k2 {
            assert(k1 * size + size <= k2 * size) by (nonlinear_arith)
                requires
                    k1 + 1 <= k2,
                    size > 0,
            ;
        } else {
            assert(k2 * size + size <= k1 * size) by (nonlinear_arith)
                requires
                    k2 + 1 <= k1,
                    size > 0,
            ;
        }
    }

    /// The slots of a run of clusters share no byte with the data of a
    /// cluster that is not among them.
    pub proof fn lemma_chain_slots_apart(&self, clusters: Seq<u32>, other: u32)
        requires
            self.sound(),
            other >= 2,
            forall|i: int|
                0 <= i < clusters.len() ==> #[trigger] clusters[i] >= 2 && clusters[i] != other,
        ensures
            forall|i: int|
                0 <= i < self.chain_slots(clusters).len() ==> apart(
                    #[trigger] self.chain_slots(clusters)[i],
                    SLOT_SIZE as int,
                    self.cluster_offset(other),
                    self.cluster_size(),
                ),
        decreases clusters.len(),
    {
        if clusters.len() > 0 {
            let front = clusters.drop_last();
            assert forall|i: int| 0 <= i < front.len() implies #[trigger] front[i] >= 2 && front[i]
                != other by {
                assert(front[i] == clusters[i]);
            }
            self.lemma_chain_slots_apart(front, other);
            let head = self.chain_slots(front);
            let last = self.cluster_slots(clusters.last());
            assert forall|i: int| 0 <= i < self.chain_slots(clusters).len() implies apart(
                #[trigger] self.chain_slots(clusters)[i],
                SLOT_SIZE as int,
                self.cluster_offset(other),
                self.cluster_size(),
            ) by {
                if i >= head.len() {
                    assert(clusters[clusters.len() - 1] >= 2);
                    self.lemma_cluster_slots_aligned(clusters.last(), i - head.len());
                    self.lemma_clusters_apart(clusters.last(), other);
                    assert(self.chain_slots(clusters)[i] == last[i - head.len()]);
                } else {
                    assert(self.chain_slots(clusters)[i] == head[i]);
                }
            }
        }
    }

    /// The FAT entries of two different clusters share no byte.
    pub proof fn lemma_entries_apart(&self, c1: u32, c2: u32)
        requires
            c1 != c2,
        ensures
            apart(self.fat_pos(c1), 4, self.fat_pos(c2), 4),
    {
    }

    /// Every cluster of the directory's chain has its FAT entry in front of
    /// the data region and is marked as in use.
    pub open spec fn settled(&self, image: Seq<u8>, dir: u32) -> bool {
        &&& self.all_in_table(self.dir_stream(image, dir).clusters)
        &&& forall|i: int|
            0 <= i < self.dir_stream(image, dir).clusters.len() ==> !self.is_free(
                image,
                #[trigger] self.dir_stream(image, dir).clusters[i],
            )
    }

    /// Marking a free cluster and writing into its data leaves a settled
    /// directory as it was.
    pub proof fn lemma_directory_apart_from_cluster(
        &self,
        image: Seq<u8>,
        dir: u32,
        fresh: u32,
        value: u32,
        data: Seq<u8>,
    )
        requires
            self.sound(),
            self.settled(image, dir),
            2 <= fresh < self.total_clusters,
            self.is_free(image, fresh),
            data.len() <= self.cluster_size(),
        ensures
            self.same_directory(
                image,
                patched(self.with_next(image, fresh, value), self.cluster_offset(fresh), data),
                dir,
            ),
    {
        let marked = self.with_next(image, fresh, value);
        let after = patched(marked, self.cluster_offset(fresh), data);
        let stream = self.dir_stream(image, dir);
        self.lemma_bounds();
        self.lemma_with_next(image, fresh, value);
        self.lemma_allocatable_in_table(fresh);
        self.lemma_dir_walk_clusters(image, dir, chain_limit(image));
        assert forall|i: int| 0 <= i < stream.clusters.len() implies agree(
            image,
            after,
            self.fat_pos(#[trigger] stream.clusters[i]),
            4,
        ) by {
            let c = stream.clusters[i];
            assert(self.in_table(c));
            assert(!self.is_free(image, c));
            self.lemma_entries_apart(fresh, c);
            lemma_patched_apart(
                image,
                self.fat_pos(fresh),
                crate::image::u32_bytes(value & crate::table::FAT_MASK),
                self.fat_pos(c),
                4,
            );
            lemma_patched_apart(marked, self.cluster_offset(fresh), data, self.fat_pos(c), 4);
        }
        assert forall|i: int| 0 <= i < stream.clusters.len() implies #[trigger] stream.clusters[i]
            >= 2 && stream.clusters[i] != fresh by {
            assert(!self.is_free(image, stream.clusters[i]));
        }
        self.lemma_chain_slots_apart(stream.clusters, fresh);
        self.lemma_stream_aligned(image, dir);
        assert forall|i: int| 0 <= i < stream.slots.len() implies agree(
            image,
            after,
            #[trigger] stream.slots[i],
            SLOT_SIZE as int,
        ) by {
            let p = stream.slots[i];
            assert(aligned(self, p));
            lemma_patched_apart(
                image,
                self.fat_pos(fresh),
                crate::image::u32_bytes(value & crate::table::FAT_MASK),
                p,
                SLOT_SIZE as int,
            );
            lemma_patched_apart(marked, self.cluster_offset(fresh), data, p, SLOT_SIZE as int);
        }
    }
}

} // verus!
