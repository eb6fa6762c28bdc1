//! Adding an entry to a directory keeps a valid volume valid, whether the
//! entry goes into a vacant slot or into a fresh cluster behind a full
//! directory.

use vstd::prelude::*;
use crate::changes::{avoids, cluster_set};
use crate::commands::is_dot_entry;
use crate::directory::{
    is_live, scan_from, slot_at, slot_entry, slot_first_cluster, slot_name, ProbeView, ScanEnd,
    ATTR_LONG_NAME, SLOT_DELETED, SLOT_SIZE, SLOT_UNUSED,
};
use crate::fat32::FAT32;
use crate::frame::{agree, lemma_agree_chain, lemma_scan_first, same_slots, stops_at};
use crate::image::{in_bounds, patched};
use crate::volume::{Catalog, Node, Owner};

verus! {

/// A chain that avoids two clusters avoids the pair.
pub proof fn lemma_avoids_two(chain: Seq<u32>, x: int, y: int)
    requires
        avoids(chain, set![x]),
        avoids(chain, set![y]),
    ensures
        avoids(chain, set![x, y]),
{
    assert forall|k: int| 0 <= k < chain.len() implies !set![x, y].contains(
        #[trigger] chain[k] as int,
    ) by {
        assert(!set![x].contains(chain[k] as int));
        assert(!set![y].contains(chain[k] as int));
    }
}

impl FAT32 {
    /// A cluster that the FAT of a valid volume marks free has no owner and
    /// stands in no chain.
    pub proof fn lemma_fresh_unowned(&self, a: Seq<u8>, cat: Catalog, fresh: u32)
        requires
            self.valid(a, cat),
            2 <= fresh < self.total_clusters,
            self.is_free(a, fresh),
        ensures
            !cat.owner.dom().contains(fresh),
            !cat.lost.contains(fresh),
            forall|d: u32| #[trigger]
                cat.dirs.dom().contains(d) ==> avoids(cat.dirs[d].chain, set![fresh as int]),
            forall|p: int| #[trigger]
                cat.entries.dom().contains(p) && !cat.entries[p].directory ==> avoids(
                    cat.entries[p].chain,
                    set![fresh as int],
                ),
    {
        assert(self.use_matches(a, cat, fresh));
        assert forall|d: u32| #[trigger] cat.dirs.dom().contains(d) implies avoids(
            cat.dirs[d].chain,
            set![fresh as int],
        ) by {
            assert(self.dir_valid(a, cat, d));
            self.lemma_dir_parts(a, cat, d);
            let chain = cat.dirs[d].chain;
            assert forall|k: int| 0 <= k < chain.len() implies !set![fresh as int].contains(
                #[trigger] chain[k] as int,
            ) by {
                assert(cat.owner.dom().contains(chain[k]));
            }
        }
        assert forall|p: int| #[trigger]
            cat.entries.dom().contains(p) && !cat.entries[p].directory implies avoids(
            cat.entries[p].chain,
            set![fresh as int],
        ) by {
            assert(self.entry_valid(a, cat, p));
            self.lemma_entry_parts(a, cat, p);
            let chain = cat.entries[p].chain;
            assert forall|k: int| 0 <= k < chain.len() implies !set![fresh as int].contains(
                #[trigger] chain[k] as int,
            ) by {
                assert(cat.owner.dom().contains(chain[k]));
            }
        }
    }

    /// The first vacant slot of a directory of a valid volume lies in the
    /// listing or ends it, and the catalogue has no entry for it.
    pub proof fn lemma_vacant_slot(&self, a: Seq<u8>, cat: Catalog, current: u32) -> (t: int)
        requires
            self.valid(a, cat),
            cat.dirs.dom().contains(current),
            self.find(a, current, ProbeView::Vacant) is At,
        ensures
            t == scan_from(a, self.dir_slots(cat, current), ProbeView::Vacant, 0),
            0 <= t <= self.dir_end(a, cat, current),
            t < self.dir_slots(cat, current).len(),
            self.find(a, current, ProbeView::Vacant) == ScanEnd::At(
                self.dir_slots(cat, current)[t],
            ),
            !is_live(slot_at(a, self.dir_slots(cat, current)[t])),
            !cat.entries.dom().contains(self.dir_slots(cat, current)[t]),
    {
        assert(self.dir_valid(a, cat, current));
        self.lemma_dir_found(a, cat, current);
        let slots = self.dir_slots(cat, current);
        let t = scan_from(a, slots, ProbeView::Vacant, 0);
        lemma_scan_first(a, slots, ProbeView::Vacant, 0);
        lemma_scan_first(a, slots, ProbeView::End, 0);
        let end = self.dir_end(a, cat, current);
        if end < t {
            assert(stops_at(a, slots, ProbeView::End, end));
            assert(!stops_at(a, slots, ProbeView::Vacant, end));
        }
        assert(stops_at(a, slots, ProbeView::Vacant, t));
        if cat.entries.dom().contains(slots[t]) {
            assert(self.entry_valid(a, cat, slots[t]));
            self.lemma_entry_parts(a, cat, slots[t]);
        }
        t
    }

    /// A fresh entry in slot `t` of a directory makes the directory valid
    /// in a catalogue that records the entry, where slot `t` lies in the
    /// listing or ends it.
    pub proof fn lemma_slot_filled(
        &self,
        a: Seq<u8>,
        b: Seq<u8>,
        cat: Catalog,
        next: Catalog,
        current: u32,
        t: int,
    )
        requires
            self.covers(a),
            a.len() == b.len(),
            self.dir_valid(a, cat, current),
            0 <= t <= self.dir_end(a, cat, current),
            t < self.dir_slots(cat, current).len(),
            self.same_links(a, b, cat.dirs[current].chain),
            forall|i: int|
                0 <= i < self.dir_slots(cat, current).len() && i != t ==> agree(
                    a,
                    b,
                    #[trigger] self.dir_slots(cat, current)[i],
                    SLOT_SIZE as int,
                ),
            next.dirs.dom().contains(current),
            next.dirs[current] == cat.dirs[current],
            self.chain_owned(next, cat.dirs[current].chain, Owner::Directory(current)),
            self.parent_ok(next, current),
            self.same_entries_but(cat, next, current, self.dir_slots(cat, current)[t]),
            is_live(slot_at(b, self.dir_slots(cat, current)[t])),
            !is_dot_entry(slot_name(slot_at(b, self.dir_slots(cat, current)[t]))),
            next.entries.dom().contains(self.dir_slots(cat, current)[t]),
            self.records(
                next.entries[self.dir_slots(cat, current)[t]],
                current,
                t,
                slot_at(b, self.dir_slots(cat, current)[t]),
            ),
        ensures
            self.dir_valid(b, next, current),
            self.dir_end(b, next, current) > t,
            self.dir_end(b, next, current) >= self.dir_end(a, cat, current),
    {
        assert(self.listed_ok(b, next, current, t));
        self.lemma_dir_slot_changed(a, b, cat, next, current, t);
    }

    /// The node records a slot of a directory: its place, and the first
    /// cluster, kind and size that the slot holds.
    pub open spec fn records(&self, node: Node, dir: u32, index: int, slot: Seq<u8>) -> bool {
        &&& node.dir == dir
        &&& node.index == index
        &&& node.first_cluster == slot_first_cluster(slot)
        &&& node.directory == slot_entry(slot).is_directory()
        &&& node.size == slot_entry(slot).file_size
    }

    /// The second catalogue is the first with one file more, an empty file
    /// named by the entry at `pos` in the directory `current` under the
    /// stored name `stored`; every entry of the first catalogue is kept,
    /// with its slot as it was.
    pub open spec fn file_made(
        a: Seq<u8>,
        b: Seq<u8>,
        cat: Catalog,
        next: Catalog,
        current: u32,
        stored: Seq<u8>,
        pos: int,
    ) -> bool {
        &&& crate::volume::growing::entry_made(a, b, cat, next, current, stored, pos)
        &&& !next.entries[pos].directory
        &&& next.entries[pos].first_cluster == 0
    }

    /// The catalogue with one file more: an empty file whose entry stands
    /// in slot `index` of the directory `dir`, at the offset `pos`.
    pub open spec fn with_file(cat: Catalog, dir: u32, index: int, pos: int) -> Catalog {
        Catalog {
            dirs: cat.dirs,
            entries: cat.entries.insert(
                pos,
                Node {
                    dir,
                    index,
                    directory: false,
                    first_cluster: 0,
                    size: 0,
                    chain: Seq::empty(),
                },
            ),
            owner: cat.owner,
            lost: cat.lost,
        }
    }

    /// The entry of a new file that went into a vacant slot of a valid
    /// volume leaves a valid volume.
    pub proof fn lemma_file_in_place(
        &self,
        a: Seq<u8>,
        cat: Catalog,
        current: u32,
        name: Seq<u8>,
    ) -> (next: Catalog)
        requires
            self.valid(a, cat),
            cat.dirs.dom().contains(current),
            self.find(a, current, ProbeView::Vacant) is At,
            crate::names::short_name(name)[0] != SLOT_UNUSED,
            crate::names::short_name(name)[0] != SLOT_DELETED,
        ensures
            self.valid(
                self.added(a, current, crate::edit::fresh_entry(name, 0, false)).image,
                next,
            ),
            next.dirs == cat.dirs,
            next.owner == cat.owner,
            next.lost == cat.lost,
            exists|pos: int|
                Self::file_made(
                    a,
                    self.added(a, current, crate::edit::fresh_entry(name, 0, false)).image,
                    cat,
                    next,
                    current,
                    crate::names::short_name(name),
                    pos,
                ),
    {
        let entry = crate::edit::fresh_entry(name, 0, false);
        let stored = crate::names::short_name(name);
        let t = self.lemma_vacant_slot(a, cat, current);
        let slots = self.dir_slots(cat, current);
        let pos = slots[t];
        let b = patched(a, pos, entry);
        assert(self.dir_valid(a, cat, current));
        self.lemma_dir_found(a, cat, current);
        self.lemma_dir_parts(a, cat, current);
        crate::laws::lemma_entry_round_trip(stored, crate::directory::ATTR_ARCHIVE, 0, 0);
        crate::volume::keeping::lemma_plain_name_is_no_dot_entry(name);
        let home = self.lemma_slot_write_changes(a, cat, current, t, 0, entry);
        let none = Set::<int>::empty();
        let touched = set![home as int];
        let next = Self::with_file(cat, current, t, pos);
        assert(slot_at(b, pos) =~= entry);
        assert(0x20u8 & 0x10u8 == 0) by (bit_vector);
        assert(self.parent_ok(next, current));
        self.lemma_slot_filled(a, b, cat, next, current, t);
        assert(self.entry_valid(b, next, pos)) by {
            reveal(FAT32::entry_valid);
        }
        self.lemma_home_apart(a, cat, current, home);
        assert(self.others_avoided(cat, none, touched, current, pos));
        assert(self.new_is_valid(b, cat, next, none, current, pos)) by {
            assert forall|c: u32| next.owner.dom().contains(c) implies #[trigger] self.owner_valid(
                next,
                c,
            ) by {
                assert(self.owner_valid(cat, c));
            }
        }
        self.lemma_volume_grows(a, b, cat, next, none, touched, current, t, pos);
        assert(Self::file_made(a, b, cat, next, current, stored, pos));
        next
    }

    /// The image after a chain has grown by a fresh cluster that holds
    /// `entry` in its first slot and zeros behind it.
    pub open spec fn lengthened(&self, image: Seq<u8>, last: u32, fresh: u32, entry: Seq<u8>) -> Seq<
        u8,
    > {
        patched(
            patched(
                self.with_next(
                    self.with_next(image, fresh, crate::table::END_OF_CHAIN),
                    last,
                    fresh,
                ),
                self.cluster_offset(fresh),
                crate::edit::zeros(self.cluster_size()),
            ),
            self.cluster_offset(fresh),
            entry,
        )
    }

    /// What growing a chain by a fresh cluster with an entry leaves in the
    /// image: the longer chain, the entry in the first slot of the new
    /// cluster, unused slots behind it, and everything else as it was.
    pub proof fn lemma_lengthened(&self, image: Seq<u8>, chain: Seq<u32>, fresh: u32, entry: Seq<u8>)
        requires
            self.covers(image),
            self.linked(image, chain),
            forall|k: int| 0 <= k < chain.len() ==> (#[trigger] chain[k]) < self.total_clusters,
            2 <= fresh < self.total_clusters,
            self.is_free(image, fresh),
            !chain.contains(fresh),
            entry.len() == SLOT_SIZE,
        ensures
            in_bounds(
                self.with_next(
                    self.with_next(image, fresh, crate::table::END_OF_CHAIN),
                    chain.last(),
                    fresh,
                ),
                self.cluster_offset(fresh),
                self.cluster_size(),
            ),
            self.lengthened(image, chain.last(), fresh, entry).len() == image.len(),
            self.changed_within(
                image,
                self.lengthened(image, chain.last(), fresh, entry),
                set![fresh as int, chain.last() as int],
                set![fresh as int],
            ),
            self.linked(self.lengthened(image, chain.last(), fresh, entry), chain.push(fresh)),
            slot_at(self.lengthened(image, chain.last(), fresh, entry), self.cluster_offset(fresh))
                == entry,
            forall|j: int|
                1 <= j < self.slots_per_cluster() ==> slot_at(
                    self.lengthened(image, chain.last(), fresh, entry),
                    #[trigger] self.cluster_slots(fresh)[j],
                )[0] == SLOT_UNUSED,
            self.chain_slots(chain.push(fresh)) == self.chain_slots(chain) + self.cluster_slots(
                fresh,
            ),
            self.cluster_slots(fresh).len() == self.slots_per_cluster(),
            self.slots_per_cluster() >= 2,
            self.cluster_slots(fresh)[0] == self.cluster_offset(fresh),
    {
        self.lemma_bounds();
        let last = chain.last();
        let eoc = crate::table::END_OF_CHAIN;
        let marked = self.with_next(image, fresh, eoc);
        let linked = self.with_next(marked, last, fresh);
        let off = self.cluster_offset(fresh);
        let size = self.cluster_size();
        let blank = patched(linked, off, crate::edit::zeros(size));
        let b = patched(blank, off, entry);
        self.lemma_with_next(image, fresh, eoc);
        self.lemma_with_next(marked, last, fresh);
        assert((fresh - 2) * size + size <= (self.total_clusters - 2) * size) by (nonlinear_arith)
            requires
                fresh + 1 <= self.total_clusters,
                size > 0,
        ;
        // The FAT.
        assert(self.total_clusters <= crate::fat32::MAX_CLUSTERS);
        self.lemma_linked_grow(image, chain, fresh);
        self.lemma_allocatable_in_table(fresh);
        assert(chain[chain.len() - 1] < self.total_clusters);
        self.lemma_allocatable_in_table(last);
        self.lemma_with_next_changes(image, fresh, eoc);
        self.lemma_with_next_changes(marked, last, fresh);
        self.lemma_patch_changes(linked, off, crate::edit::zeros(size), fresh);
        self.lemma_patch_changes(blank, off, entry, fresh);
        self.lemma_changes_compose(
            image,
            marked,
            linked,
            set![fresh as int],
            Set::empty(),
            set![last as int],
            Set::empty(),
        );
        self.lemma_changes_compose(
            linked,
            blank,
            b,
            Set::empty(),
            set![fresh as int],
            Set::empty(),
            set![fresh as int],
        );
        self.lemma_changes_compose(
            image,
            linked,
            b,
            set![fresh as int] + set![last as int],
            Set::<int>::empty() + Set::<int>::empty(),
            Set::<int>::empty() + Set::<int>::empty(),
            set![fresh as int] + set![fresh as int],
        );
        self.lemma_changes_widen(
            image,
            b,
            (set![fresh as int] + set![last as int]) + (Set::<int>::empty() + Set::<int>::empty()),
            (Set::<int>::empty() + Set::<int>::empty()) + (set![fresh as int] + set![fresh as int]),
            set![fresh as int, last as int],
            set![fresh as int],
        );
        let longer = chain.push(fresh);
        assert(self.all_in_table(longer)) by {
            assert forall|k: int| 0 <= k < longer.len() implies self.in_table(
                #[trigger] longer[k],
            ) by {
                if k < chain.len() {
                    assert(longer[k] == chain[k]);
                    self.lemma_allocatable_in_table(chain[k]);
                }
            }
        }
        self.lemma_changes_widen(
            linked,
            b,
            Set::<int>::empty() + Set::<int>::empty(),
            set![fresh as int] + set![fresh as int],
            Set::empty(),
            set![fresh as int],
        );
        crate::volume::keeping::lemma_avoids_all(longer);
        self.lemma_changes_keep_links(linked, b, Set::empty(), set![fresh as int], longer);
        self.lemma_linked_frame(linked, b, longer);
        // The new cluster.
        assert(slot_at(b, off) =~= entry);
        assert forall|j: int| 1 <= j < self.slots_per_cluster() implies slot_at(
            b,
            #[trigger] self.cluster_slots(fresh)[j],
        )[0] == SLOT_UNUSED by {
            self.lemma_cluster_slots_aligned(fresh, j);
            let p = self.cluster_slots(fresh)[j];
            assert(b[p] == blank[p]);
            assert(blank[p] == crate::edit::zeros(size)[p - off]);
        }
        assert(longer.drop_last() =~= chain);
        assert(longer.last() == fresh);
    }

    /// A full directory that has grown by a fresh cluster with a short
    /// entry in its first slot and unused slots behind it is valid in a
    /// catalogue that records the longer chain and the entry.
    pub proof fn lemma_dir_extended(
        &self,
        a: Seq<u8>,
        b: Seq<u8>,
        cat: Catalog,
        next: Catalog,
        current: u32,
        fresh: u32,
    )
        requires
            self.covers(a),
            a.len() == b.len(),
            self.dir_valid(a, cat, current),
            self.dir_end(a, cat, current) == self.dir_slots(cat, current).len(),
            2 <= fresh < self.total_clusters,
            self.linked(b, cat.dirs[current].chain.push(fresh)),
            same_slots(
                a,
                b,
                self.dir_slots(cat, current),
                self.dir_slots(cat, current).len() as int,
            ),
            is_live(slot_at(b, self.cluster_offset(fresh))),
            !is_dot_entry(slot_name(slot_at(b, self.cluster_offset(fresh)))),
            forall|j: int|
                1 <= j < self.slots_per_cluster() ==> slot_at(
                    b,
                    #[trigger] self.cluster_slots(fresh)[j],
                )[0] == SLOT_UNUSED,
            self.chain_slots(cat.dirs[current].chain.push(fresh)) == self.dir_slots(cat, current)
                + self.cluster_slots(fresh),
            self.cluster_slots(fresh).len() == self.slots_per_cluster(),
            self.slots_per_cluster() >= 2,
            self.cluster_slots(fresh)[0] == self.cluster_offset(fresh),
            next.dirs.dom().contains(current),
            next.dirs[current].chain == cat.dirs[current].chain.push(fresh),
            next.dirs[current].parent == cat.dirs[current].parent,
            self.chain_owned(
                next,
                cat.dirs[current].chain.push(fresh),
                Owner::Directory(current),
            ),
            self.parent_ok(next, current),
            self.same_entries(cat, next, current),
            next.entries.dom().contains(self.cluster_offset(fresh)),
            self.records(
                next.entries[self.cluster_offset(fresh)],
                current,
                self.dir_slots(cat, current).len() as int,
                slot_at(b, self.cluster_offset(fresh)),
            ),
        ensures
            self.dir_valid(b, next, current),
            self.dir_end(b, next, current) == self.dir_slots(cat, current).len() + 1,
            self.dir_slots(next, current) == self.dir_slots(cat, current) + self.cluster_slots(
                fresh,
            ),
    {
        reveal(FAT32::dir_valid);
        let old = self.dir_slots(cat, current);
        let all = self.dir_slots(next, current);
        let len = old.len() as int;
        let pos = self.cluster_offset(fresh);
        self.lemma_dir_found(a, cat, current);
        lemma_scan_first(a, old, ProbeView::End, 0);
        assert(all == old + self.cluster_slots(fresh));
        assert(all[len] == pos);
        assert(all[len + 1] == self.cluster_slots(fresh)[1]);
        assert((fresh - 2) * self.cluster_size() + self.cluster_size() <= (self.total_clusters
            - 2) * self.cluster_size()) by (nonlinear_arith)
            requires
                fresh + 1 <= self.total_clusters,
                self.cluster_size() > 0,
        ;
        self.lemma_bounds();
        self.lemma_cluster_slots_aligned(fresh, 0);
        self.lemma_cluster_slots_aligned(fresh, 1);
        assert forall|i: int| 0 <= i < len + 1 implies !#[trigger] stops_at(
            b,
            all,
            ProbeView::End,
            i,
        ) by {
            if i < len {
                assert(all[i] == old[i]);
                assert(!stops_at(a, old, ProbeView::End, i));
                crate::frame::lemma_same_slot(a, b, old[i]);
            }
        }
        assert(stops_at(b, all, ProbeView::End, len + 1));
        crate::frame::lemma_scan_is(b, all, ProbeView::End, 0, len + 1);
        assert forall|i: int| 0 <= i < len + 1 implies #[trigger] self.listed_ok(
            b,
            next,
            current,
            i,
        ) by {
            if i < len {
                assert(all[i] == old[i]);
                assert(self.listed_ok(a, cat, current, i));
                crate::frame::lemma_same_slot(a, b, old[i]);
                if is_live(slot_at(a, old[i])) {
                    assert(self.slot_valid(a, cat, current, i));
                }
            }
        }
        assert forall|i: int| len + 1 <= i < all.len() implies #[trigger] self.tail_ok(
            b,
            next,
            current,
            i,
        ) by {
            assert(all[i] == self.cluster_slots(fresh)[i - len]);
        }
    }

    /// The slot of an entry of a valid volume lies in a cluster that has an
    /// owner.
    pub proof fn lemma_entry_position(&self, a: Seq<u8>, cat: Catalog, p: int) -> (home: u32)
        requires
            self.valid(a, cat),
            cat.entries.dom().contains(p),
        ensures
            cat.owner.dom().contains(home),
            home >= 2,
            self.cluster_offset(home) <= p,
            p + SLOT_SIZE <= self.cluster_offset(home) + self.cluster_size(),
    {
        assert(self.entry_valid(a, cat, p));
        self.lemma_entry_parts(a, cat, p);
        let node = cat.entries[p];
        assert(self.dir_valid(a, cat, node.dir));
        self.lemma_dir_parts(a, cat, node.dir);
        self.lemma_dir_found(a, cat, node.dir);
        let chain = cat.dirs[node.dir].chain;
        assert forall|k: int| 0 <= k < chain.len() implies (#[trigger] chain[k]) >= 2 by {}
        let k = self.lemma_slot_home(chain, node.index);
        assert(cat.owner.dom().contains(chain[k]));
        chain[k]
    }

    /// No entry of a valid volume stands at the start of a cluster without
    /// an owner.
    pub proof fn lemma_no_entry_in_fresh(&self, a: Seq<u8>, cat: Catalog, fresh: u32)
        requires
            self.valid(a, cat),
            fresh >= 2,
            !cat.owner.dom().contains(fresh),
        ensures
            !cat.entries.dom().contains(self.cluster_offset(fresh)),
    {
        let p = self.cluster_offset(fresh);
        if cat.entries.dom().contains(p) {
            let home = self.lemma_entry_position(a, cat, p);
            self.lemma_bounds();
            self.lemma_byte_in_cluster(home as int, p);
            self.lemma_byte_in_cluster(fresh as int, p);
        }
    }

    /// The catalogue in which the directory `dir` has grown by the cluster
    /// `fresh`.
    pub open spec fn with_longer_dir(cat: Catalog, dir: u32, fresh: u32) -> Catalog {
        Catalog {
            dirs: cat.dirs.insert(
                dir,
                crate::volume::DirInfo {
                    chain: cat.dirs[dir].chain.push(fresh),
                    parent: cat.dirs[dir].parent,
                    entry: cat.dirs[dir].entry,
                    depth: cat.dirs[dir].depth,
                },
            ),
            entries: cat.entries,
            owner: cat.owner.insert(fresh, Owner::Directory(dir)),
            lost: cat.lost,
        }
    }

    /// The chain of a directory that has grown by a cluster without an
    /// owner belongs to the directory in the catalogue that records the
    /// growth.
    pub proof fn lemma_longer_owned(&self, a: Seq<u8>, cat: Catalog, next: Catalog, dir: u32, fresh: u32)
        requires
            self.dir_valid(a, cat, dir),
            2 <= fresh < self.total_clusters,
            !cat.owner.dom().contains(fresh),
            next.owner == cat.owner.insert(fresh, Owner::Directory(dir)),
        ensures
            self.chain_owned(next, cat.dirs[dir].chain.push(fresh), Owner::Directory(dir)),
            !cat.dirs[dir].chain.contains(fresh),
    {
        self.lemma_dir_parts(a, cat, dir);
        let chain = cat.dirs[dir].chain;
        let longer = chain.push(fresh);
        if chain.contains(fresh) {
            let k = choose|k: int| 0 <= k < chain.len() && chain[k] == fresh;
            assert(cat.owner.dom().contains(chain[k]));
        }
        assert forall|i: int, j: int|
            0 <= i < longer.len() && 0 <= j < longer.len() && i != j implies longer[i]
            != longer[j] by {
            if i < chain.len() {
                assert(longer[i] == chain[i]);
                assert(cat.owner.dom().contains(chain[i]));
            }
            if j < chain.len() {
                assert(longer[j] == chain[j]);
                assert(cat.owner.dom().contains(chain[j]));
            }
        }
        assert forall|k: int| 0 <= k < longer.len() implies (#[trigger] longer[k])
            < self.total_clusters && next.owner.dom().contains(longer[k]) && next.owner[longer[k]]
            == Owner::Directory(dir) by {
            if k < chain.len() {
                assert(longer[k] == chain[k]);
                assert(cat.owner.dom().contains(chain[k]));
            }
        }
    }

    /// The entry of a new file that went into a fresh cluster behind a
    /// full directory of a valid volume leaves a valid volume.
    pub proof fn lemma_file_behind(
        &self,
        a: Seq<u8>,
        cat: Catalog,
        current: u32,
        name: Seq<u8>,
    ) -> (next: Catalog)
        requires
            self.valid(a, cat),
            cat.dirs.dom().contains(current),
            self.find(a, current, ProbeView::Vacant) is Ended,
            self.added(a, current, crate::edit::fresh_entry(name, 0, false)).result is Ok,
            crate::names::short_name(name)[0] != SLOT_UNUSED,
            crate::names::short_name(name)[0] != SLOT_DELETED,
        ensures
            self.valid(
                self.added(a, current, crate::edit::fresh_entry(name, 0, false)).image,
                next,
            ),
            next.lost == cat.lost,
            exists|pos: int|
                Self::file_made(
                    a,
                    self.added(a, current, crate::edit::fresh_entry(name, 0, false)).image,
                    cat,
                    next,
                    current,
                    crate::names::short_name(name),
                    pos,
                ),
    {
        let entry = crate::edit::fresh_entry(name, 0, false);
        let stored = crate::names::short_name(name);
        assert(self.dir_valid(a, cat, current));
        self.lemma_dir_found(a, cat, current);
        self.lemma_dir_parts(a, cat, current);
        let chain = cat.dirs[current].chain;
        let slots = self.dir_slots(cat, current);
        let len = slots.len() as int;
        lemma_scan_first(a, slots, ProbeView::Vacant, 0);
        lemma_scan_first(a, slots, ProbeView::End, 0);
        assert(self.dir_end(a, cat, current) == len) by {
            let end = self.dir_end(a, cat, current);
            if end < len {
                assert(stops_at(a, slots, ProbeView::End, end));
                assert(!stops_at(a, slots, ProbeView::Vacant, end));
            }
        }
        let last = chain.last();
        self.lemma_free_scan(a, crate::table::FIRST_DATA_CLUSTER);
        let fresh = self.free_scan(a, crate::table::FIRST_DATA_CLUSTER)->Free_0;
        self.lemma_fresh_unowned(a, cat, fresh);
        let pos = self.cluster_offset(fresh);
        let next0 = Self::with_longer_dir(cat, current, fresh);
        let next = Self::with_file(next0, current, len, pos);
        self.lemma_longer_owned(a, cat, next, current, fresh);
        self.lemma_lengthened(a, chain, fresh, entry);
        let b = self.lengthened(a, last, fresh, entry);
        assert(b == self.added(a, current, entry).image);
        let entries = set![fresh as int, last as int];
        let clusters = set![fresh as int];
        crate::laws::lemma_entry_round_trip(stored, crate::directory::ATTR_ARCHIVE, 0, 0);
        crate::volume::keeping::lemma_plain_name_is_no_dot_entry(name);
        assert(0x20u8 & 0x10u8 == 0) by (bit_vector);
        self.lemma_no_entry_in_fresh(a, cat, fresh);
        // The directory.
        assert forall|k: int| 0 <= k < chain.len() implies (#[trigger] chain[k]) >= 2 by {}
        self.lemma_changes_keep_slots(a, b, entries, clusters, chain);
        assert(self.parent_ok(next, current));
        assert(self.same_entries(cat, next, current));
        self.lemma_dir_extended(a, b, cat, next, current, fresh);
        assert(self.entry_valid(b, next, pos)) by {
            reveal(FAT32::entry_valid);
        }
        // Everything else.
        assert(self.others_avoided(cat, entries, clusters, current, pos)) by {
            assert forall|d: u32| #[trigger]
                cat.dirs.dom().contains(d) && d != current implies avoids(
                cat.dirs[d].chain,
                entries,
            ) && avoids(cat.dirs[d].chain, clusters) by {
                assert(self.dir_valid(a, cat, d));
                self.lemma_dir_parts(a, cat, d);
                assert(cat.owner.dom().contains(chain[chain.len() - 1]));
                self.lemma_owner_apart(cat, cat.dirs[d].chain, Owner::Directory(d), last);
                lemma_avoids_two(cat.dirs[d].chain, fresh as int, last as int);
            }
            assert forall|p: int| #[trigger]
                cat.entries.dom().contains(p) && p != pos && !cat.entries[p].directory implies avoids(
                cat.entries[p].chain,
                entries,
            ) by {
                assert(self.entry_valid(a, cat, p));
                self.lemma_entry_parts(a, cat, p);
                assert(cat.owner.dom().contains(chain[chain.len() - 1]));
                self.lemma_owner_apart(cat, cat.entries[p].chain, Owner::File(p), last);
                lemma_avoids_two(cat.entries[p].chain, fresh as int, last as int);
            }
        }
        assert(self.slots_stay(a, b, cat, next, current, len)) by {
            assert forall|i: int| 0 <= i < slots.len() implies #[trigger] self.dir_slots(
                next,
                current,
            )[i] == slots[i] by {}
        }
        assert(self.new_is_valid(b, cat, next, entries, current, pos)) by {
            let longer = chain.push(fresh);
            assert(longer[chain.len() as int] == fresh);
            assert forall|c: u32| next.owner.dom().contains(c) implies #[trigger] self.owner_valid(
                next,
                c,
            ) by {
                if c != fresh {
                    assert(self.owner_valid(cat, c));
                    if cat.owner[c] == Owner::Directory(current) {
                        let k = choose|k: int| 0 <= k < chain.len() && chain[k] == c;
                        assert(longer[k] == c);
                    }
                }
            }
            assert forall|c: u32|
                2 <= c < self.total_clusters && (entries.contains(c as int)
                    || next.owner.dom().contains(c) != cat.owner.dom().contains(c)
                    || next.lost.contains(c) != cat.lost.contains(c)) implies #[trigger] self.use_matches(
                b,
                next,
                c,
            ) by {
                assert(self.use_matches(a, cat, c));
                assert(longer[chain.len() - 1] == last);
                assert(self.fat_readable(b, longer[chain.len() - 1]));
                assert(self.fat_readable(b, longer[chain.len() as int]));
                assert(self.next_of(b, longer[chain.len() - 1]) == longer[chain.len() as int]);
                assert(cat.owner.dom().contains(chain[chain.len() - 1]));
            }
        }
        self.lemma_volume_grows(a, b, cat, next, entries, clusters, current, len, pos);
        assert(Self::file_made(a, b, cat, next, current, stored, pos));
        next
    }

    /// Creating a file keeps a valid volume valid: the catalogue gains the
    /// entry of the file, and where the directory was full, the directory
    /// gains a cluster.
    ///
    /// The law leaves out names whose stored form begins with the byte
    /// `0x00` or `0xE5`: the entry of such a name is taken for the end of
    /// the directory or for a deleted slot.
    pub proof fn law_creat_keeps_volume(
        &self,
        image: Seq<u8>,
        cat: Catalog,
        current: u32,
        name: Seq<u8>,
    ) -> (next: Catalog)
        requires
            self.valid(image, cat),
            cat.dirs.dom().contains(current),
            crate::commands::creat_outcome(self, image, current, name).result is Ok,
            crate::names::short_name(name)[0] != SLOT_UNUSED,
            crate::names::short_name(name)[0] != SLOT_DELETED,
        ensures
            self.valid(crate::commands::creat_outcome(self, image, current, name).image, next),
            next.lost == cat.lost,
            exists|pos: int|
                Self::file_made(
                    image,
                    crate::commands::creat_outcome(self, image, current, name).image,
                    cat,
                    next,
                    current,
                    crate::names::short_name(name),
                    pos,
                ),
    {
        if self.find(image, current, ProbeView::Vacant) is At {
            self.lemma_file_in_place(image, cat, current, name)
        } else {
            self.lemma_file_behind(image, cat, current, name)
        }
    }
}

} // verus!
