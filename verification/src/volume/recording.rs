//! Writing to a file keeps a valid volume valid.

use vstd::prelude::*;
use crate::changes::{avoids, cluster_set};
use crate::commands::{is_dot_entry, linked_outcome, sized_outcome, unquoted, write_outcome};
use crate::directory::{
    is_live, scan_from, slot_at, slot_entry, slot_first_cluster, slot_name, ProbeView, ScanEnd,
    SLOT_SIZE, SLOT_UNUSED,
};
use crate::error::FsError;
use crate::fat32::FAT32;
use crate::frame::{agree, lemma_same_slot, lemma_scan_first, lemma_scan_is, same_slots, stops_at};
use crate::image::{in_bounds, patched};
use crate::names::short_name;
use crate::open_files::OpenFileView;
use crate::table::END_OF_CHAIN;
use crate::volume::{Catalog, Node, Owner};

verus! {

impl FAT32 {
    /// The cluster has no owner, or belongs to the file at `pos`.
    pub open spec fn free_or_of(&self, cat: Catalog, cluster: u32, pos: int) -> bool {
        !cat.owner.dom().contains(cluster) || cat.owner[cluster] == Owner::File(pos)
    }

    /// In a valid volume no short entry but the one of the file itself has
    /// a first cluster that is free or belongs to the file.
    pub proof fn lemma_first_clusters_differ(
        &self,
        a: Seq<u8>,
        cat: Catalog,
        current: u32,
        i: int,
        pos: int,
        first_cluster: u32,
    )
        requires
            self.valid(a, cat),
            cat.dirs.dom().contains(current),
            0 <= i < self.dir_end(a, cat, current),
            is_live(slot_at(a, self.dir_slots(cat, current)[i])),
            self.dir_slots(cat, current)[i] != pos,
            first_cluster >= 2,
            self.free_or_of(cat, first_cluster, pos),
        ensures
            slot_first_cluster(slot_at(a, self.dir_slots(cat, current)[i])) != first_cluster,
    {
        assert(self.dir_valid(a, cat, current));
        self.lemma_listed(a, cat, current, i);
        self.lemma_dir_parts(a, cat, current);
        let q = self.dir_slots(cat, current)[i];
        let slot = slot_at(a, q);
        if is_dot_entry(slot_name(slot)) {
            let info = cat.dirs[current];
            assert(cat.owner.dom().contains(info.chain[0]));
            assert(cat.dirs.dom().contains(info.parent));
            assert(self.dir_valid(a, cat, info.parent));
            self.lemma_dir_parts(a, cat, info.parent);
            assert(cat.owner.dom().contains(cat.dirs[info.parent].chain[0]));
        } else {
            assert(self.entry_valid(a, cat, q));
            self.lemma_entry_parts(a, cat, q);
            let node = cat.entries[q];
            if node.directory {
                assert(self.dir_valid(a, cat, node.first_cluster));
                self.lemma_dir_parts(a, cat, node.first_cluster);
                assert(cat.owner.dom().contains(cat.dirs[node.first_cluster].chain[0]));
            } else if node.chain.len() > 0 {
                assert(cat.owner.dom().contains(node.chain[0]));
            }
        }
    }

    /// A scan for a first cluster stops at the first short entry that has
    /// it, where no slot before ends the directory.
    pub proof fn lemma_probe_first_cluster(
        image: Seq<u8>,
        slots: Seq<int>,
        first_cluster: u32,
        t: int,
    )
        requires
            0 <= t < slots.len(),
            forall|i: int|
                0 <= i < t ==> in_bounds(image, #[trigger] slots[i], SLOT_SIZE as int) && slot_at(
                    image,
                    slots[i],
                )[0] != SLOT_UNUSED && (is_live(slot_at(image, slots[i])) ==> slot_first_cluster(
                    slot_at(image, slots[i]),
                ) != first_cluster),
            in_bounds(image, slots[t], SLOT_SIZE as int),
            is_live(slot_at(image, slots[t])),
            slot_first_cluster(slot_at(image, slots[t])) == first_cluster,
        ensures
            scan_from(image, slots, ProbeView::FirstCluster(first_cluster), 0) == t,
    {
        let probe = ProbeView::FirstCluster(first_cluster);
        assert forall|i: int| 0 <= i < t implies !#[trigger] stops_at(image, slots, probe, i) by {
            assert(in_bounds(image, slots[i], SLOT_SIZE as int));
        }
        assert(stops_at(image, slots, probe, t));
        lemma_scan_is(image, slots, probe, 0, t);
    }

    /// The first cluster that the entry of a file holds after a write: the
    /// first cluster of its chain, or zero where it has none.
    pub open spec fn first_of(chain: Seq<u32>) -> u32 {
        if chain.len() > 0 {
            chain[0]
        } else {
            0
        }
    }

    /// The size that the entry of a file holds after a write: the end of
    /// the data where that lies beyond the size that the record had, else
    /// the size that the entry held.
    pub open spec fn size_after(record: OpenFileView, data: Seq<u8>, held: u32) -> u32 {
        if record.offset + data.len() > record.file_size {
            (record.offset + data.len()) as u32
        } else {
            held
        }
    }

    /// What the second half of a write leaves in the image, where it
    /// succeeds: the slot of the file's entry with the first cluster of the
    /// chain and the size after the write, and every byte outside that
    /// slot as it was.
    pub proof fn lemma_entry_recorded(
        &self,
        x: Seq<u8>,
        current: u32,
        t: int,
        name: Seq<u8>,
        data: Seq<u8>,
        record: OpenFileView,
        chain: Seq<u32>,
    )
        requires
            self.wf(),
            0 <= t < self.dir_stream(x, current).slots.len(),
            self.all_in_table(self.dir_stream(x, current).clusters),
            self.dir_stream(x, current).slots[t] >= self.data_region_offset,
            in_bounds(x, self.dir_stream(x, current).slots[t], SLOT_SIZE as int),
            forall|i: int|
                0 <= i < self.dir_stream(x, current).slots.len() && i != t ==> crate::frame::apart(
                    #[trigger] self.dir_stream(x, current).slots[i],
                    SLOT_SIZE as int,
                    self.dir_stream(x, current).slots[t],
                    SLOT_SIZE as int,
                ),
            forall|i: int|
                0 <= i < t ==> in_bounds(
                    x,
                    #[trigger] self.dir_stream(x, current).slots[i],
                    SLOT_SIZE as int,
                ) && slot_at(x, self.dir_stream(x, current).slots[i])[0] != SLOT_UNUSED && (is_live(
                    slot_at(x, self.dir_stream(x, current).slots[i]),
                ) && chain.len() > 0 ==> slot_first_cluster(
                    slot_at(x, self.dir_stream(x, current).slots[i]),
                ) != Self::first_of(chain)),
            is_live(slot_at(x, self.dir_stream(x, current).slots[t])),
            slot_first_cluster(slot_at(x, self.dir_stream(x, current).slots[t]))
                == record.first_cluster,
            self.locate(x, current, ProbeView::Name(short_name(name))) == Ok::<int, FsError>(
                self.dir_stream(x, current).slots[t],
            ),
            record.first_cluster != 0 ==> chain.len() > 0 && chain[0] == record.first_cluster,
            record.offset + data.len() <= chain.len() * self.cluster_size(),
            record.offset + data.len() <= u32::MAX,
        ensures
            linked_outcome(self, x, current, name, data, record, chain).result is Ok,
            linked_outcome(self, x, current, name, data, record, chain).image.len() == x.len(),
            forall|i: int|
                0 <= i < x.len() && !(self.dir_stream(x, current).slots[t] <= i < self.dir_stream(
                    x,
                    current,
                ).slots[t] + 32) ==> linked_outcome(
                    self,
                    x,
                    current,
                    name,
                    data,
                    record,
                    chain,
                ).image[i] == x[i],
            ({
                let pos = self.dir_stream(x, current).slots[t];
                let out = linked_outcome(self, x, current, name, data, record, chain);
                let slot = slot_at(out.image, pos);
                let held = slot_at(x, pos);
                &&& slot[0] == held[0]
                &&& slot[11] == held[11]
                &&& slot_name(slot) == slot_name(held)
                &&& slot_first_cluster(slot) == Self::first_of(chain)
                &&& slot_entry(slot).file_size == Self::size_after(
                    record,
                    data,
                    slot_entry(held).file_size,
                )
                &&& out.record.first_cluster == Self::first_of(chain)
            }),
    {
        self.lemma_bounds();
        let slots = self.dir_stream(x, current).slots;
        let pos = slots[t];
        let first = Self::first_of(chain);
        let link = record.first_cluster == 0 && chain.len() > 0;
        let x2 = if link {
            Self::with_first_cluster(x, pos, first)
        } else {
            x
        };
        let record2 = if link {
            OpenFileView { first_cluster: first, ..record }
        } else {
            record
        };
        if link {
            Self::lemma_first_cluster_written(x, pos, first);
            let half = patched(x, pos + 20, crate::image::u16_bytes((first / 0x1_0000) as u16));
            self.lemma_stream_after_data_write(
                x,
                current,
                pos + 20,
                crate::image::u16_bytes((first / 0x1_0000) as u16),
            );
            self.lemma_stream_after_data_write(
                half,
                current,
                pos + 26,
                crate::image::u16_bytes((first % 0x1_0000) as u16),
            );
        }
        assert(self.dir_stream(x2, current) == self.dir_stream(x, current));
        assert(linked_outcome(self, x, current, name, data, record, chain) == sized_outcome(
            self,
            x2,
            current,
            data,
            record2,
        ));
        let end = (record.offset + data.len()) as u32;
        if chain.len() == 0 {
            assert(chain.len() * self.cluster_size() == 0) by (nonlinear_arith)
                requires
                    chain.len() == 0,
            ;
        }
        if end > record2.file_size {
            // The search for the first cluster finds the slot of the file.
            assert(chain.len() > 0);
            assert(record2.first_cluster == first);
            assert forall|i: int| 0 <= i < t implies in_bounds(
                x2,
                #[trigger] slots[i],
                SLOT_SIZE as int,
            ) && slot_at(x2, slots[i])[0] != SLOT_UNUSED && (is_live(slot_at(x2, slots[i]))
                ==> slot_first_cluster(slot_at(x2, slots[i])) != first) by {
                assert(crate::frame::apart(slots[i], SLOT_SIZE as int, pos, SLOT_SIZE as int));
                assert(slot_at(x2, slots[i]) =~= slot_at(x, slots[i]));
            }
            Self::lemma_probe_first_cluster(x2, slots, first, t);
            assert(slot_at(x2, pos)[0] == x2[pos]);
            assert(self.locate(x2, current, ProbeView::FirstCluster(first)) == Ok::<int, FsError>(
                pos,
            ));
            Self::lemma_size_written(x2, pos, end);
        }
    }

    /// The catalogue after a write to the file at `pos`: the entry holds
    /// the new chain with its first cluster and the new size, and every
    /// cluster of the chain belongs to the file.
    pub open spec fn with_written(cat: Catalog, pos: int, chain: Seq<u32>, size: u32) -> Catalog {
        Catalog {
            dirs: cat.dirs,
            entries: cat.entries.insert(
                pos,
                Node {
                    dir: cat.entries[pos].dir,
                    index: cat.entries[pos].index,
                    directory: false,
                    first_cluster: Self::first_of(chain),
                    size,
                    chain,
                },
            ),
            owner: Map::new(
                |c: u32| cat.owner.dom().contains(c) || chain.contains(c),
                |c: u32|
                    if chain.contains(c) {
                        Owner::File(pos)
                    } else {
                        cat.owner[c]
                    },
            ),
            lost: cat.lost,
        }
    }

    /// The clusters of a chain that has grown by free clusters are free or
    /// belong to the file.
    pub proof fn lemma_written_own(&self, a: Seq<u8>, cat: Catalog, pos: int, longer: Seq<u32>)
        requires
            self.valid(a, cat),
            cat.entries.dom().contains(pos),
            !cat.entries[pos].directory,
            self.grown_by_free(a, cat.entries[pos].chain, longer),
        ensures
            forall|k: int| 0 <= k < longer.len() ==> self.free_or_of(cat, #[trigger] longer[k], pos),
    {
        assert(self.entry_valid(a, cat, pos));
        self.lemma_entry_parts(a, cat, pos);
        let chain = cat.entries[pos].chain;
        assert forall|k: int| 0 <= k < longer.len() implies self.free_or_of(
            cat,
            #[trigger] longer[k],
            pos,
        ) by {
            if k < chain.len() {
                assert(longer[k] == chain[k]);
                assert(cat.owner[chain[k]] == Owner::File(pos));
            } else {
                assert(self.is_free(a, longer[k]));
                assert(self.use_matches(a, cat, longer[k]));
            }
        }
    }

    /// Every chain with another owner avoids the clusters of a chain that
    /// has grown by free clusters.
    pub proof fn lemma_written_apart(
        &self,
        a: Seq<u8>,
        cat: Catalog,
        pos: int,
        longer: Seq<u32>,
        other: Seq<u32>,
        whose: Owner,
    )
        requires
            self.valid(a, cat),
            cat.entries.dom().contains(pos),
            !cat.entries[pos].directory,
            self.grown_by_free(a, cat.entries[pos].chain, longer),
            self.chain_owned(cat, other, whose),
            whose != Owner::File(pos),
        ensures
            avoids(other, cluster_set(longer)),
    {
        self.lemma_written_own(a, cat, pos, longer);
        assert forall|j: int| 0 <= j < other.len() implies !cluster_set(longer).contains(
            #[trigger] other[j] as int,
        ) by {
            if cluster_set(longer).contains(other[j] as int) {
                let k = choose|k: int| 0 <= k < longer.len() && longer[k] as int == other[j] as int;
                assert(self.free_or_of(cat, longer[k], pos));
                assert(cat.owner.dom().contains(other[j]));
            }
        }
    }

    /// What the catalogue after a write holds, where it comes from a valid
    /// catalogue and the chain has grown by free clusters.
    pub proof fn lemma_with_written(
        &self,
        a: Seq<u8>,
        cat: Catalog,
        pos: int,
        longer: Seq<u32>,
        size: u32,
    )
        requires
            self.valid(a, cat),
            cat.entries.dom().contains(pos),
            !cat.entries[pos].directory,
            self.grown_by_free(a, cat.entries[pos].chain, longer),
            longer.no_duplicates(),
        ensures
            self.chain_owned(Self::with_written(cat, pos, longer, size), longer, Owner::File(pos)),
            self.grown_from(
                cat,
                Self::with_written(cat, pos, longer, size),
                cat.entries[pos].dir,
                pos,
            ),
            self.same_entries_but(
                cat,
                Self::with_written(cat, pos, longer, size),
                cat.entries[pos].dir,
                pos,
            ),
            forall|c: u32|
                Self::with_written(cat, pos, longer, size).owner.dom().contains(c)
                    ==> #[trigger] self.owner_valid(Self::with_written(cat, pos, longer, size), c),
            forall|d: u32| #[trigger]
                cat.dirs.dom().contains(d) ==> self.chain_owned(
                    Self::with_written(cat, pos, longer, size),
                    cat.dirs[d].chain,
                    Owner::Directory(d),
                ) && self.parent_ok(Self::with_written(cat, pos, longer, size), d) && avoids(
                    cat.dirs[d].chain,
                    cluster_set(longer),
                ),
            forall|p: int| #[trigger]
                cat.entries.dom().contains(p) && p != pos && !cat.entries[p].directory ==> avoids(
                    cat.entries[p].chain,
                    cluster_set(longer),
                ),
    {
        let next = Self::with_written(cat, pos, longer, size);
        let chain = cat.entries[pos].chain;
        assert(self.entry_valid(a, cat, pos));
        self.lemma_entry_parts(a, cat, pos);
        assert(self.chain_owned(next, longer, Owner::File(pos))) by {
            assert forall|k: int| 0 <= k < longer.len() implies (#[trigger] longer[k])
                < self.total_clusters && next.owner.dom().contains(longer[k])
                && next.owner[longer[k]] == Owner::File(pos) by {
                assert(longer.contains(longer[k]));
                if k < chain.len() {
                    assert(longer[k] == chain[k]);
                }
            }
        }
        assert forall|d: u32| #[trigger] cat.dirs.dom().contains(d) implies self.chain_owned(
            next,
            cat.dirs[d].chain,
            Owner::Directory(d),
        ) && self.parent_ok(next, d) && avoids(cat.dirs[d].chain, cluster_set(longer)) by {
            assert(self.dir_valid(a, cat, d));
            self.lemma_dir_parts(a, cat, d);
            let other = cat.dirs[d].chain;
            self.lemma_written_apart(a, cat, pos, longer, other, Owner::Directory(d));
            assert forall|k: int| 0 <= k < other.len() implies (#[trigger] other[k])
                < self.total_clusters && next.owner.dom().contains(other[k])
                && next.owner[other[k]] == Owner::Directory(d) by {
                assert(!cluster_set(longer).contains(other[k] as int));
                if longer.contains(other[k]) {
                    let j = choose|j: int| 0 <= j < longer.len() && longer[j] == other[k];
                    assert(longer[j] as int == other[k] as int);
                }
            }
        }
        assert forall|p: int| #[trigger]
            cat.entries.dom().contains(p) && p != pos && !cat.entries[p].directory implies avoids(
            cat.entries[p].chain,
            cluster_set(longer),
        ) by {
            assert(self.entry_valid(a, cat, p));
            self.lemma_entry_parts(a, cat, p);
            self.lemma_written_apart(a, cat, pos, longer, cat.entries[p].chain, Owner::File(p));
        }
        assert(self.grown_from(cat, next, cat.entries[pos].dir, pos)) by {
            assert forall|c: u32| #[trigger] cat.owner.dom().contains(c) implies next.owner.dom().contains(
                c,
            ) && next.owner[c] == cat.owner[c] by {
                if longer.contains(c) {
                    let k = choose|k: int| 0 <= k < longer.len() && longer[k] == c;
                    self.lemma_written_own(a, cat, pos, longer);
                    assert(self.free_or_of(cat, longer[k], pos));
                }
            }
        }
        assert forall|c: u32| next.owner.dom().contains(c) implies #[trigger] self.owner_valid(
            next,
            c,
        ) by {
            if longer.contains(c) {
                let k = choose|k: int| 0 <= k < longer.len() && longer[k] == c;
                if k >= chain.len() {
                    assert(2 <= longer[k] < self.total_clusters);
                } else {
                    assert(longer[k] == chain[k]);
                    assert(self.owner_valid(cat, chain[k]));
                }
            } else {
                assert(self.owner_valid(cat, c));
                match cat.owner[c] {
                    Owner::Directory(d) => {},
                    Owner::File(p) => {
                        if p == pos {
                            let k = choose|k: int| 0 <= k < chain.len() && chain[k] == c;
                            assert(longer[k] == c);
                        }
                    },
                }
            }
        }
    }

    /// Two images that differ only inside one slot differ only in the data
    /// of the cluster in which that slot lies.
    pub proof fn lemma_slot_changes(&self, x: Seq<u8>, b: Seq<u8>, pos: int, home: u32)
        requires
            self.wf(),
            x.len() == b.len(),
            home >= 2,
            self.cluster_offset(home) <= pos,
            pos + SLOT_SIZE <= self.cluster_offset(home) + self.cluster_size(),
            forall|i: int| 0 <= i < x.len() && !(pos <= i < pos + 32) ==> b[i] == x[i],
        ensures
            self.changed_within(x, b, Set::empty(), set![home as int]),
    {
        assert forall|i: int|
            0 <= i < x.len() && #[trigger] self.untouched(
                i,
                Set::empty(),
                set![home as int],
            ) implies x[i] == b[i] by {
            if pos <= i < pos + 32 {
                self.lemma_byte_in_cluster(home as int, i);
            }
        }
    }

    /// What a successful write does to the image of a valid volume, seen
    /// from the directory of the file: the data goes into the chain of the
    /// file, grown by free clusters, and the entry of the file records the
    /// first cluster and the size; every other slot of the directory and
    /// every link of its chain stay as they were.
    pub proof fn lemma_write_image(
        &self,
        a: Seq<u8>,
        cat: Catalog,
        current: u32,
        name: Seq<u8>,
        text: Seq<u8>,
        record: OpenFileView,
        pos: int,
    ) -> (home: u32)
        requires
            self.valid(a, cat),
            cat.dirs.dom().contains(current),
            cat.entries.dom().contains(pos),
            cat.entries[pos].dir == current,
            !cat.entries[pos].directory,
            self.locate(a, current, ProbeView::Name(short_name(name))) == Ok::<int, FsError>(pos),
            record.first_cluster == cat.entries[pos].first_cluster,
            record.mode.can_write(),
            record.offset + unquoted(text).len() <= u32::MAX,
            self.written(
                a,
                cat.entries[pos].chain,
                record.offset as int,
                unquoted(text),
            ).result is Ok,
        ensures
            cat.owner.dom().contains(home),
            cat.owner[home] == Owner::Directory(current),
            write_outcome(self, a, current, name, text, record).result is Ok,
            ({
                let chain = cat.entries[pos].chain;
                let data = unquoted(text);
                let written = self.written(a, chain, record.offset as int, data);
                let out = write_outcome(self, a, current, name, text, record);
                let slot = slot_at(out.image, pos);
                let held = slot_at(a, pos);
                &&& written.result is Ok
                &&& written.chain.no_duplicates()
                &&& self.grown_by_free(a, chain, written.chain)
                &&& self.linked_or_empty(out.image, written.chain)
                &&& record.offset + data.len() <= written.chain.len() * self.cluster_size()
                &&& out.image.len() == a.len()
                &&& self.changed_within(
                    a,
                    out.image,
                    cluster_set(written.chain),
                    cluster_set(written.chain) + set![home as int],
                )
                &&& forall|i: int|
                    0 <= i < self.dir_slots(cat, current).len() && i != cat.entries[pos].index
                        ==> agree(
                        a,
                        out.image,
                        #[trigger] self.dir_slots(cat, current)[i],
                        SLOT_SIZE as int,
                    )
                &&& self.same_links(a, out.image, cat.dirs[current].chain)
                &&& self.changed_within(written.image, out.image, Set::empty(), set![home as int])
                &&& slot[0] == held[0]
                &&& slot[11] == held[11]
                &&& slot_name(slot) == slot_name(held)
                &&& slot_first_cluster(slot) == Self::first_of(written.chain)
                &&& slot_entry(slot).file_size == Self::size_after(
                    record,
                    data,
                    slot_entry(held).file_size,
                )
                &&& out.record.first_cluster == Self::first_of(written.chain)
            }),
    {
        let node = cat.entries[pos];
        let chain = node.chain;
        let t = node.index;
        let data = unquoted(text);
        let slots = self.dir_slots(cat, current);
        let dir_chain = cat.dirs[current].chain;
        assert(self.entry_valid(a, cat, pos));
        self.lemma_entry_parts(a, cat, pos);
        assert(self.dir_valid(a, cat, current));
        self.lemma_dir_found(a, cat, current);
        self.lemma_dir_parts(a, cat, current);
        self.law_files_fit_their_chains(a, cat, pos);
        let written = self.written(a, chain, record.offset as int, data);
        assert(written.result is Ok);
        assert(write_outcome(self, a, current, name, text, record) == linked_outcome(
            self,
            written.image,
            current,
            name,
            data,
            record,
            written.chain,
        ));
        assert forall|k: int| 0 <= k < chain.len() implies (#[trigger] chain[k])
            < self.total_clusters by {}
        self.lemma_written(a, chain, record.offset as int, data);
        let x = written.image;
        let longer = written.chain;
        let touched = cluster_set(longer);
        // The directory of the file is found in the written image as before.
        self.lemma_written_apart(a, cat, pos, longer, dir_chain, Owner::Directory(current));
        self.lemma_written_own(a, cat, pos, longer);
        self.lemma_dir_kept_same(a, cat, current);
        self.lemma_other_dir_kept(a, x, cat, cat, touched, touched, current);
        self.lemma_dir_found(x, cat, current);
        self.lemma_owned_in_table(cat, dir_chain, Owner::Directory(current));
        self.lemma_changes_keep_links(a, x, touched, touched, dir_chain);
        self.lemma_find_frame(a, x, current, ProbeView::Name(short_name(name)));
        assert(agree(a, x, slots[t], SLOT_SIZE as int));
        lemma_same_slot(a, x, pos);
        assert(slot_at(a, pos)[0] == a[pos]);
        assert(slot_at(x, pos)[0] == x[pos]);
        assert(self.locate(x, current, ProbeView::Name(short_name(name))) == Ok::<int, FsError>(
            pos,
        ));
        // No entry before that of the file has the first cluster of the chain.
        let first = Self::first_of(longer);
        lemma_scan_first(a, slots, ProbeView::End, 0);
        assert forall|i: int| 0 <= i < t implies in_bounds(x, #[trigger] slots[i], SLOT_SIZE as int)
            && slot_at(x, slots[i])[0] != SLOT_UNUSED && (is_live(slot_at(x, slots[i]))
            && longer.len() > 0 ==> slot_first_cluster(slot_at(x, slots[i])) != first) by {
            assert(agree(a, x, slots[i], SLOT_SIZE as int));
            lemma_same_slot(a, x, slots[i]);
            assert(!stops_at(a, slots, ProbeView::End, i));
            if is_live(slot_at(x, slots[i])) && longer.len() > 0 {
                self.lemma_slots_distinct(dir_chain);
                assert(self.free_or_of(cat, longer[0], pos));
                self.lemma_first_clusters_differ(a, cat, current, i, pos, first);
            }
        }
        self.lemma_slots_distinct(dir_chain);
        assert forall|i: int| 0 <= i < slots.len() && i != t implies crate::frame::apart(
            #[trigger] slots[i],
            SLOT_SIZE as int,
            pos,
            SLOT_SIZE as int,
        ) by {
            crate::frame::lemma_aligned_apart(self, slots[i], pos);
        }
        if record.first_cluster != 0 {
            assert(chain.len() > 0);
            assert(longer[0] == chain[0]);
        }
        self.lemma_entry_recorded(x, current, t, name, data, record, longer);
        let out = linked_outcome(self, x, current, name, data, record, longer);
        let b = out.image;
        let k = self.lemma_slot_home(dir_chain, t);
        let home = dir_chain[k];
        self.lemma_slot_changes(x, b, pos, home);
        self.lemma_changes_compose(a, x, b, touched, touched, Set::empty(), set![home as int]);
        self.lemma_changes_widen(
            a,
            b,
            touched + Set::<int>::empty(),
            touched + set![home as int],
            touched,
            touched + set![home as int],
        );
        assert forall|i: int| 0 <= i < slots.len() && i != t implies agree(
            a,
            b,
            #[trigger] slots[i],
            SLOT_SIZE as int,
        ) by {
            assert(agree(a, x, slots[i], SLOT_SIZE as int));
            assert(crate::frame::apart(slots[i], SLOT_SIZE as int, pos, SLOT_SIZE as int));
        }
        assert(self.same_links(a, b, dir_chain)) by {
            assert forall|j: int| 0 <= j < dir_chain.len() implies agree(
                a,
                b,
                self.fat_pos(#[trigger] dir_chain[j]),
                4,
            ) by {
                assert(agree(a, x, self.fat_pos(dir_chain[j]), 4));
                assert(self.in_table(dir_chain[j]));
            }
        }
        if longer.len() > 0 {
            assert(self.all_in_table(longer)) by {
                assert forall|j: int| 0 <= j < longer.len() implies self.in_table(
                    #[trigger] longer[j],
                ) by {
                    if j < chain.len() {
                        assert(longer[j] == chain[j]);
                    }
                    self.lemma_allocatable_in_table(longer[j]);
                }
            }
            crate::volume::keeping::lemma_avoids_all(longer);
            self.lemma_changes_keep_links(x, b, Set::empty(), set![home as int], longer);
            self.lemma_linked_frame(x, b, longer);
        }
        lemma_same_slot(a, x, pos);
        home
    }

    /// Writing to a file keeps a valid volume valid: the catalogue records
    /// the chain of the file, grown by the clusters that the write took,
    /// with its first cluster in the entry, and a size that the chain has
    /// room for.
    ///
    /// The law speaks of a write through a record that belongs to the
    /// entry: the name stands for the entry in the current directory, and
    /// the record holds the first cluster of the entry.
    pub proof fn law_write_keeps_volume(
        &self,
        image: Seq<u8>,
        cat: Catalog,
        current: u32,
        name: Seq<u8>,
        text: Seq<u8>,
        record: OpenFileView,
        pos: int,
    ) -> (next: Catalog)
        requires
            self.valid(image, cat),
            cat.dirs.dom().contains(current),
            cat.entries.dom().contains(pos),
            cat.entries[pos].dir == current,
            !cat.entries[pos].directory,
            self.locate(image, current, ProbeView::Name(short_name(name))) == Ok::<int, FsError>(
                pos,
            ),
            record.first_cluster == cat.entries[pos].first_cluster,
            write_outcome(self, image, current, name, text, record).result is Ok,
        ensures
            self.valid(write_outcome(self, image, current, name, text, record).image, next),
            next.lost == cat.lost,
            next.entries.dom().contains(pos),
            !next.entries[pos].directory,
            next.entries[pos].chain == self.written(
                image,
                cat.entries[pos].chain,
                record.offset as int,
                unquoted(text),
            ).chain,
            next.entries[pos].first_cluster == write_outcome(
                self,
                image,
                current,
                name,
                text,
                record,
            ).record.first_cluster,
            next.entries[pos].size == Self::size_after(
                record,
                unquoted(text),
                cat.entries[pos].size,
            ),
    {
        let a = image;
        let node = cat.entries[pos];
        let chain = node.chain;
        let t = node.index;
        let data = unquoted(text);
        let out = write_outcome(self, a, current, name, text, record);
        let b = out.image;
        let longer = self.written(a, chain, record.offset as int, data).chain;
        let slots = self.dir_slots(cat, current);
        assert(self.entry_valid(a, cat, pos));
        self.lemma_entry_parts(a, cat, pos);
        assert(self.dir_valid(a, cat, current));
        self.lemma_dir_found(a, cat, current);
        self.law_files_fit_their_chains(a, cat, pos);
        let home = self.lemma_write_image(a, cat, current, name, text, record, pos);
        let size = Self::size_after(record, data, node.size);
        let next = Self::with_written(cat, pos, longer, size);
        let entries = cluster_set(longer);
        let clusters = cluster_set(longer) + set![home as int];
        self.lemma_with_written(a, cat, pos, longer, size);
        assert(self.dir_valid(b, next, current) && self.dir_end(b, next, current) == self.dir_end(
            a,
            cat,
            current,
        )) by {
            assert(self.listed_ok(b, next, current, t));
            self.lemma_dir_slot_changed(a, b, cat, next, current, t);
        }
        assert(size <= longer.len() * self.cluster_size()) by {
            self.lemma_bounds();
            assert(chain.len() * self.cluster_size() <= longer.len() * self.cluster_size())
                by (nonlinear_arith)
                requires
                    chain.len() <= longer.len(),
                    self.cluster_size() > 0,
            ;
        }
        assert(self.entry_valid(b, next, pos)) by {
            reveal(FAT32::entry_valid);
        }
        assert(self.others_avoided(cat, entries, clusters, current, pos)) by {
            self.lemma_home_apart(a, cat, current, home);
            assert forall|d: u32| #[trigger]
                cat.dirs.dom().contains(d) && d != current implies avoids(
                cat.dirs[d].chain,
                entries,
            ) && avoids(cat.dirs[d].chain, clusters) by {
                let other = cat.dirs[d].chain;
                assert(avoids(other, set![home as int]));
                assert forall|k: int| 0 <= k < other.len() implies !clusters.contains(
                    #[trigger] other[k] as int,
                ) by {
                    assert(!entries.contains(other[k] as int));
                    assert(!set![home as int].contains(other[k] as int));
                }
            }
        }
        assert(self.slots_stay(a, b, cat, next, current, t));
        assert(self.new_is_valid(b, cat, next, entries, current, pos)) by {
            assert forall|c: u32|
                2 <= c < self.total_clusters && (entries.contains(c as int)
                    || next.owner.dom().contains(c) != cat.owner.dom().contains(c)
                    || next.lost.contains(c) != cat.lost.contains(c)) implies #[trigger] self.use_matches(
                b,
                next,
                c,
            ) by {
                assert(self.use_matches(a, cat, c));
                if longer.contains(c) {
                    let k = choose|k: int| 0 <= k < longer.len() && longer[k] == c;
                    assert(self.linked(b, longer));
                    assert(self.fat_readable(b, longer[k]));
                    if k < longer.len() - 1 {
                        assert(self.next_of(b, longer[k]) == longer[k + 1]);
                        assert(longer[k + 1] >= 2);
                    } else {
                        assert(longer[k] == longer.last());
                    }
                } else {
                    if entries.contains(c as int) {
                        let k = choose|k: int| 0 <= k < longer.len() && longer[k] as int == c as int;
                        assert(longer.contains(longer[k]));
                    }
                }
            }
        }
        self.lemma_volume_grows(a, b, cat, next, entries, clusters, current, t, pos);
        next
    }

    /// A change that touches no cluster of a chain leaves the data that a
    /// read brings back through the chain as it was.
    pub proof fn lemma_file_data_frame(
        &self,
        x: Seq<u8>,
        b: Seq<u8>,
        clusters: Set<int>,
        chain: Seq<u32>,
        offset: int,
        size: int,
    )
        requires
            self.wf(),
            0 <= offset,
            0 <= size,
            self.changed_within(x, b, Set::empty(), clusters),
            avoids(chain, clusters),
            self.file_data(x, chain, offset, size) is Ok,
        ensures
            self.file_data(b, chain, offset, size) == self.file_data(x, chain, offset, size),
    {
        self.lemma_bounds();
        let len = self.span_len(chain, offset, size);
        assert forall|k: int| offset <= k < offset + len implies #[trigger] self.byte_readable(
            b,
            chain,
            k,
        ) && b[self.data_pos(chain, k)] == x[self.data_pos(chain, k)] by {
            assert(self.byte_readable(x, chain, k));
            self.lemma_data_pos(chain, k);
            let index = k / self.cluster_size();
            let cluster = chain[index];
            let p = self.data_pos(chain, k);
            assert(!clusters.contains(chain[index] as int));
            self.lemma_byte_in_cluster(cluster as int, p);
            assert(self.untouched(p, Set::empty(), clusters));
        }
        assert(self.span(b, chain, offset, len) =~= self.span(x, chain, offset, len)) by {
            assert forall|i: int| 0 <= i < len implies self.span(b, chain, offset, len)[i]
                == self.span(x, chain, offset, len)[i] by {
                assert(self.byte_readable(b, chain, offset + i));
            }
        }
    }

    /// What a write command stored is what a read through the new record
    /// brings back: the chain that the FAT links from the first cluster of
    /// the record is the chain of the write, and the data stands in it at
    /// the offset of the write.
    pub proof fn law_write_reads_back(
        &self,
        image: Seq<u8>,
        cat: Catalog,
        current: u32,
        name: Seq<u8>,
        text: Seq<u8>,
        record: OpenFileView,
        pos: int,
    )
        requires
            self.valid(image, cat),
            cat.dirs.dom().contains(current),
            cat.entries.dom().contains(pos),
            cat.entries[pos].dir == current,
            !cat.entries[pos].directory,
            self.locate(image, current, ProbeView::Name(short_name(name))) == Ok::<int, FsError>(
                pos,
            ),
            record.first_cluster == cat.entries[pos].first_cluster,
            write_outcome(self, image, current, name, text, record).result is Ok,
        ensures
            ({
                let out = write_outcome(self, image, current, name, text, record);
                let chain = self.written(
                    image,
                    cat.entries[pos].chain,
                    record.offset as int,
                    unquoted(text),
                ).chain;
                &&& self.chain_of(out.image, out.record.first_cluster) == Ok::<Seq<u32>, FsError>(
                    chain,
                )
                &&& self.file_data(
                    out.image,
                    chain,
                    record.offset as int,
                    unquoted(text).len() as int,
                ) == Ok::<Seq<u8>, FsError>(unquoted(text))
            }),
    {
        let a = image;
        let old = cat.entries[pos].chain;
        let data = unquoted(text);
        let out = write_outcome(self, a, current, name, text, record);
        let written = self.written(a, old, record.offset as int, data);
        let next = self.law_write_keeps_volume(a, cat, current, name, text, record, pos);
        self.law_files_fit_their_chains(out.image, next, pos);
        assert(self.entry_valid(out.image, next, pos));
        self.lemma_entry_parts(out.image, next, pos);
        assert(self.entry_valid(a, cat, pos));
        self.lemma_entry_parts(a, cat, pos);
        self.law_files_fit_their_chains(a, cat, pos);
        let home = self.lemma_write_image(a, cat, current, name, text, record, pos);
        assert(self.all_in_use(a, old)) by {
            assert forall|k: int| 0 <= k < old.len() implies !self.is_free(a, #[trigger] old[k]) by {
                assert(cat.owner.dom().contains(old[k]));
                assert(self.use_matches(a, cat, old[k]));
            }
        }
        self.law_write_then_read(a, old, record.offset as int, data);
        self.lemma_written_own(a, cat, pos, written.chain);
        assert(avoids(written.chain, set![home as int])) by {
            assert forall|k: int| 0 <= k < written.chain.len() implies !set![home as int].contains(
                #[trigger] written.chain[k] as int,
            ) by {
                assert(self.free_or_of(cat, written.chain[k], pos));
            }
        }
        self.lemma_file_data_frame(
            written.image,
            out.image,
            set![home as int],
            written.chain,
            record.offset as int,
            data.len() as int,
        );
    }

    /// After a write the entry of the file holds the larger of its old
    /// size and the end of the data, the chain that the FAT links from its
    /// first cluster is the chain of the write, the size is at most what
    /// that chain holds, and the chain ends in an end mark.
    ///
    /// The law speaks of a write through a record that belongs to the
    /// entry: the name stands for the entry in the current directory, and
    /// the record holds the first cluster and the size of the entry.
    pub proof fn law_write_fits_the_chain(
        &self,
        image: Seq<u8>,
        cat: Catalog,
        current: u32,
        name: Seq<u8>,
        text: Seq<u8>,
        record: OpenFileView,
        pos: int,
    )
        requires
            self.valid(image, cat),
            cat.dirs.dom().contains(current),
            cat.entries.dom().contains(pos),
            cat.entries[pos].dir == current,
            !cat.entries[pos].directory,
            self.locate(image, current, ProbeView::Name(short_name(name))) == Ok::<int, FsError>(
                pos,
            ),
            record.first_cluster == cat.entries[pos].first_cluster,
            record.file_size == cat.entries[pos].size,
            write_outcome(self, image, current, name, text, record).result is Ok,
        ensures
            ({
                let out = write_outcome(self, image, current, name, text, record);
                let chain = self.written(
                    image,
                    cat.entries[pos].chain,
                    record.offset as int,
                    unquoted(text),
                ).chain;
                let entry = slot_entry(slot_at(out.image, pos));
                let end = record.offset + unquoted(text).len();
                &&& entry.file_size == if end > cat.entries[pos].size {
                    end
                } else {
                    cat.entries[pos].size as int
                }
                &&& entry.file_size <= chain.len() * self.cluster_size()
                &&& self.chain_of(out.image, entry.first_cluster) == Ok::<Seq<u32>, FsError>(chain)
                &&& chain.len() > 0 ==> self.next_of(out.image, chain.last()) >= END_OF_CHAIN
            }),
    {
        let out = write_outcome(self, image, current, name, text, record);
        let next = self.law_write_keeps_volume(image, cat, current, name, text, record, pos);
        self.law_files_fit_their_chains(out.image, next, pos);
        assert(self.entry_valid(out.image, next, pos));
        self.lemma_entry_parts(out.image, next, pos);
    }
}

} // verus!
