//! Creating a directory keeps a valid volume valid.

use vstd::prelude::*;
use crate::changes::{avoids, cluster_set};
use crate::commands::is_dot_entry;
use crate::directory::{
    entry_bytes, is_live, scan_from, slot_at, slot_entry, slot_first_cluster, slot_name,
    ProbeView, ScanEnd, ATTR_DIRECTORY, ATTR_LONG_NAME, SLOT_DELETED, SLOT_SIZE, SLOT_UNUSED,
};
use crate::fat32::FAT32;
use crate::frame::{agree, lemma_agree_chain, lemma_same_slot, lemma_scan_first, same_slots, stops_at};
use crate::image::{in_bounds, patched};
use crate::names::{dot_name, DOT, SPACE};
use crate::table::{END_OF_CHAIN, FAT_MASK};
use crate::volume::{Catalog, DirInfo, Node, Owner};

verus! {

impl FAT32 {
    /// The image after the cluster `dir` has been marked as the end of a
    /// chain and set up as an empty directory below `parent`.
    pub open spec fn set_up(&self, image: Seq<u8>, dir: u32, parent: u32) -> Seq<u8> {
        patched(
            self.with_next(image, dir, END_OF_CHAIN),
            self.cluster_offset(dir),
            self.dot_block(dir, parent),
        )
    }

    /// What setting up a free cluster as an empty directory leaves in the
    /// image: the cluster as a chain of its own, the entries `.` and `..`
    /// in its first two slots, unused slots behind them, and everything
    /// else as it was.
    pub proof fn lemma_set_up(&self, image: Seq<u8>, dir: u32, parent: u32)
        requires
            self.covers(image),
            2 <= dir < self.total_clusters,
            self.is_free(image, dir),
        ensures
            in_bounds(
                self.with_next(image, dir, END_OF_CHAIN),
                self.cluster_offset(dir),
                self.cluster_size(),
            ),
            self.set_up(image, dir, parent).len() == image.len(),
            self.changed_within(
                image,
                self.set_up(image, dir, parent),
                set![dir as int],
                set![dir as int],
            ),
            self.linked(self.set_up(image, dir, parent), seq![dir]),
            self.chain_slots(seq![dir]) == self.cluster_slots(dir),
            self.cluster_slots(dir).len() == self.slots_per_cluster(),
            self.slots_per_cluster() >= 2,
            slot_at(self.set_up(image, dir, parent), self.cluster_slots(dir)[0]) == entry_bytes(
                dot_name(1),
                ATTR_DIRECTORY,
                dir,
                0,
            ),
            slot_at(self.set_up(image, dir, parent), self.cluster_slots(dir)[1]) == entry_bytes(
                dot_name(2),
                ATTR_DIRECTORY,
                parent,
                0,
            ),
            forall|j: int|
                2 <= j < self.slots_per_cluster() ==> slot_at(
                    self.set_up(image, dir, parent),
                    #[trigger] self.cluster_slots(dir)[j],
                )[0] == SLOT_UNUSED,
    {
        self.lemma_bounds();
        let marked = self.with_next(image, dir, END_OF_CHAIN);
        let off = self.cluster_offset(dir);
        let size = self.cluster_size();
        let block = self.dot_block(dir, parent);
        let b = patched(marked, off, block);
        self.lemma_with_next(image, dir, END_OF_CHAIN);
        assert(END_OF_CHAIN & FAT_MASK == END_OF_CHAIN) by (bit_vector);
        assert((dir - 2) * size + size <= (self.total_clusters - 2) * size) by (nonlinear_arith)
            requires
                dir + 1 <= self.total_clusters,
                size > 0,
        ;
        assert(block.len() == size);
        self.lemma_allocatable_in_table(dir);
        self.lemma_with_next_changes(image, dir, END_OF_CHAIN);
        self.lemma_patch_changes(marked, off, block, dir);
        self.lemma_changes_compose(
            image,
            marked,
            b,
            set![dir as int],
            Set::empty(),
            Set::empty(),
            set![dir as int],
        );
        self.lemma_changes_widen(
            image,
            b,
            set![dir as int] + Set::<int>::empty(),
            Set::<int>::empty() + set![dir as int],
            set![dir as int],
            set![dir as int],
        );
        let chain = seq![dir];
        assert(self.all_in_table(chain));
        crate::volume::keeping::lemma_avoids_all(chain);
        self.lemma_changes_keep_links(marked, b, Set::empty(), set![dir as int], chain);
        assert(agree(marked, b, self.fat_pos(chain[0]), 4));
        self.lemma_next_of_agree(marked, b, dir);
        assert(chain.last() == dir);
        self.lemma_chain_slots_one(dir);
        self.lemma_cluster_slots_aligned(dir, 0);
        self.lemma_cluster_slots_aligned(dir, 1);
        assert(slot_at(b, self.cluster_slots(dir)[0]) =~= entry_bytes(
            dot_name(1),
            ATTR_DIRECTORY,
            dir,
            0,
        ));
        assert(slot_at(b, self.cluster_slots(dir)[1]) =~= entry_bytes(
            dot_name(2),
            ATTR_DIRECTORY,
            parent,
            0,
        ));
        assert forall|j: int| 2 <= j < self.slots_per_cluster() implies slot_at(
            b,
            #[trigger] self.cluster_slots(dir)[j],
        )[0] == SLOT_UNUSED by {
            self.lemma_cluster_slots_aligned(dir, j);
            let p = self.cluster_slots(dir)[j];
            assert(b[p] == block[p - off]);
        }
    }

    /// A cluster that holds `.` and `..` and nothing else, as a chain of
    /// its own, is a valid directory in a catalogue that records it.
    pub proof fn lemma_new_dir(&self, b: Seq<u8>, next: Catalog, dir: u32)
        requires
            self.covers(b),
            2 <= dir < self.total_clusters,
            dir != self.boot_sector.root_cluster,
            self.linked(b, seq![dir]),
            slot_at(b, self.cluster_slots(dir)[0]) == entry_bytes(
                dot_name(1),
                ATTR_DIRECTORY,
                dir,
                0,
            ),
            slot_at(b, self.cluster_slots(dir)[1]) == entry_bytes(
                dot_name(2),
                ATTR_DIRECTORY,
                next.dirs[dir].parent,
                0,
            ),
            forall|j: int|
                2 <= j < self.slots_per_cluster() ==> slot_at(
                    b,
                    #[trigger] self.cluster_slots(dir)[j],
                )[0] == SLOT_UNUSED,
            next.dirs.dom().contains(dir),
            next.dirs[dir].chain == seq![dir],
            self.chain_owned(next, seq![dir], Owner::Directory(dir)),
            self.parent_ok(next, dir),
        ensures
            self.dir_valid(b, next, dir),
    {
        reveal(FAT32::dir_valid);
        self.lemma_chain_slots_one(dir);
        self.lemma_bounds();
        let slots = self.dir_slots(next, dir);
        assert(slots == self.cluster_slots(dir));
        let parent = next.dirs[dir].parent;
        crate::laws::lemma_entry_round_trip(dot_name(1), ATTR_DIRECTORY, dir, 0);
        crate::laws::lemma_entry_round_trip(dot_name(2), ATTR_DIRECTORY, parent, 0);
        assert(0x10u8 & 0x10u8 != 0) by (bit_vector);
        assert(dot_name(1)[0] == DOT);
        assert(dot_name(2)[0] == DOT);
        assert(dot_name(1)[1] == SPACE);
        assert(dot_name(2)[1] == DOT);
        assert((dir - 2) * self.cluster_size() + self.cluster_size() <= (self.total_clusters - 2)
            * self.cluster_size()) by (nonlinear_arith)
            requires
                dir + 1 <= self.total_clusters,
                self.cluster_size() > 0,
        ;
        self.lemma_cluster_slots_aligned(dir, 0);
        self.lemma_cluster_slots_aligned(dir, 1);
        let first = slot_at(b, slots[0]);
        let second = slot_at(b, slots[1]);
        assert(slot_name(first)[0] == first[0]);
        assert(slot_name(second)[0] == second[0]);
        assert(!stops_at(b, slots, ProbeView::End, 0));
        assert(!stops_at(b, slots, ProbeView::End, 1));
        assert forall|i: int| 0 <= i < 2 implies !#[trigger] stops_at(b, slots, ProbeView::End, i) by {}
        if 2 < slots.len() {
            self.lemma_cluster_slots_aligned(dir, 2);
            assert(slot_at(b, self.cluster_slots(dir)[2])[0] == SLOT_UNUSED);
            assert(stops_at(b, slots, ProbeView::End, 2));
        }
        crate::frame::lemma_scan_is(b, slots, ProbeView::End, 0, 2);
        assert(self.dir_end(b, next, dir) == 2);
        assert(self.listed_ok(b, next, dir, 0));
        assert(self.listed_ok(b, next, dir, 1));
        assert forall|i: int| 0 <= i < 2 implies #[trigger] self.listed_ok(b, next, dir, i) by {}
        assert forall|i: int| 2 <= i < slots.len() implies #[trigger] self.tail_ok(
            b,
            next,
            dir,
            i,
        ) by {
            assert(slot_at(b, self.cluster_slots(dir)[i])[0] == SLOT_UNUSED);
        }
    }

    /// The second catalogue is the first with one directory more, named by
    /// the entry at `pos` in the directory `current` under the stored name
    /// `stored`; every entry of the first catalogue is kept, with its slot
    /// as it was.
    pub open spec fn dir_made(
        &self,
        a: Seq<u8>,
        b: Seq<u8>,
        cat: Catalog,
        next: Catalog,
        current: u32,
        stored: Seq<u8>,
        pos: int,
    ) -> bool {
        &&& crate::volume::growing::entry_made(a, b, cat, next, current, stored, pos)
        &&& next.entries[pos].directory
        &&& !cat.dirs.dom().contains(next.entries[pos].first_cluster)
    }

    /// The catalogue with one directory more: an empty directory in the
    /// cluster `fresh`, named by the entry in slot `index` of the
    /// directory `dir`, at the offset `pos`.
    pub open spec fn with_dir(cat: Catalog, dir: u32, index: int, pos: int, fresh: u32) -> Catalog {
        Catalog {
            dirs: cat.dirs.insert(
                fresh,
                DirInfo {
                    chain: seq![fresh],
                    parent: dir,
                    entry: pos,
                    depth: cat.dirs[dir].depth + 1,
                },
            ),
            entries: cat.entries.insert(
                pos,
                Node {
                    dir,
                    index,
                    directory: true,
                    first_cluster: fresh,
                    size: 0,
                    chain: Seq::empty(),
                },
            ),
            owner: cat.owner.insert(fresh, Owner::Directory(fresh)),
            lost: cat.lost,
        }
    }

    /// Setting up a free cluster as a directory leaves a directory of a
    /// valid volume as it was, and every scan of it too.
    pub proof fn lemma_set_up_apart(
        &self,
        a: Seq<u8>,
        cat: Catalog,
        current: u32,
        fresh: u32,
        probe: ProbeView,
    )
        requires
            self.valid(a, cat),
            cat.dirs.dom().contains(current),
            2 <= fresh < self.total_clusters,
            self.is_free(a, fresh),
        ensures
            self.dir_valid(self.set_up(a, fresh, current), cat, current),
            self.dir_end(self.set_up(a, fresh, current), cat, current) == self.dir_end(
                a,
                cat,
                current,
            ),
            same_slots(
                a,
                self.set_up(a, fresh, current),
                self.dir_slots(cat, current),
                self.dir_slots(cat, current).len() as int,
            ),
            self.same_links(a, self.set_up(a, fresh, current), cat.dirs[current].chain),
            self.find(self.set_up(a, fresh, current), current, probe) == self.find(
                a,
                current,
                probe,
            ),
            scan_from(self.set_up(a, fresh, current), self.dir_slots(cat, current), probe, 0)
                == scan_from(a, self.dir_slots(cat, current), probe, 0),
            self.listing(self.set_up(a, fresh, current), current) == self.listing(a, current),
    {
        let a1 = self.set_up(a, fresh, current);
        let touched = set![fresh as int];
        self.lemma_set_up(a, fresh, current);
        self.lemma_fresh_unowned(a, cat, fresh);
        assert(self.dir_valid(a, cat, current));
        self.lemma_dir_kept_same(a, cat, current);
        self.lemma_dir_found(a, cat, current);
        self.lemma_dir_parts(a, cat, current);
        self.lemma_other_dir_kept(a, a1, cat, cat, touched, touched, current);
        self.lemma_owned_in_table(cat, cat.dirs[current].chain, Owner::Directory(current));
        self.lemma_changes_keep_links(a, a1, touched, touched, cat.dirs[current].chain);
        self.lemma_find_frame(a, a1, current, probe);
        self.law_listing_unchanged(a, a1, current);
    }

    /// What a new directory with its entry in slot `t` of its parent leaves
    /// in the image: the new cluster as set up, the entry in its slot, and
    /// every other slot and every link of the parent as they were.
    pub proof fn lemma_dir_in_place_image(
        &self,
        a: Seq<u8>,
        cat: Catalog,
        current: u32,
        fresh: u32,
        t: int,
        entry: Seq<u8>,
    ) -> (home: u32)
        requires
            self.valid(a, cat),
            cat.dirs.dom().contains(current),
            2 <= fresh < self.total_clusters,
            self.is_free(a, fresh),
            0 <= t < self.dir_slots(cat, current).len(),
            entry.len() == SLOT_SIZE,
        ensures
            cat.owner.dom().contains(home),
            cat.owner[home] == Owner::Directory(current),
            self.changed_within(
                a,
                patched(self.set_up(a, fresh, current), self.dir_slots(cat, current)[t], entry),
                set![fresh as int],
                set![fresh as int, home as int],
            ),
            forall|i: int|
                0 <= i < self.dir_slots(cat, current).len() && i != t ==> agree(
                    a,
                    patched(self.set_up(a, fresh, current), self.dir_slots(cat, current)[t], entry),
                    #[trigger] self.dir_slots(cat, current)[i],
                    SLOT_SIZE as int,
                ),
            self.same_links(
                a,
                patched(self.set_up(a, fresh, current), self.dir_slots(cat, current)[t], entry),
                cat.dirs[current].chain,
            ),
            slot_at(
                patched(self.set_up(a, fresh, current), self.dir_slots(cat, current)[t], entry),
                self.dir_slots(cat, current)[t],
            ) == entry,
            self.linked(
                patched(self.set_up(a, fresh, current), self.dir_slots(cat, current)[t], entry),
                seq![fresh],
            ),
            forall|j: int|
                0 <= j < self.slots_per_cluster() ==> slot_at(
                    patched(self.set_up(a, fresh, current), self.dir_slots(cat, current)[t], entry),
                    #[trigger] self.cluster_slots(fresh)[j],
                ) == slot_at(self.set_up(a, fresh, current), self.cluster_slots(fresh)[j]),
    {
        let a1 = self.set_up(a, fresh, current);
        let slots = self.dir_slots(cat, current);
        let chain = cat.dirs[current].chain;
        let pos = slots[t];
        self.lemma_set_up(a, fresh, current);
        self.lemma_set_up_apart(a, cat, current, fresh, ProbeView::Vacant);
        self.lemma_fresh_unowned(a, cat, fresh);
        assert(self.dir_valid(a, cat, current));
        self.lemma_dir_found(a, cat, current);
        let b = patched(a1, pos, entry);
        let home = self.lemma_slot_write_changes(a1, cat, current, t, 0, entry);
        self.lemma_changes_compose(
            a,
            a1,
            b,
            set![fresh as int],
            set![fresh as int],
            Set::empty(),
            set![home as int],
        );
        self.lemma_changes_widen(
            a,
            b,
            set![fresh as int] + Set::<int>::empty(),
            set![fresh as int] + set![home as int],
            set![fresh as int],
            set![fresh as int, home as int],
        );
        assert(slot_at(b, pos) =~= entry);
        assert forall|i: int| 0 <= i < slots.len() && i != t implies agree(
            a,
            b,
            #[trigger] slots[i],
            SLOT_SIZE as int,
        ) by {
            assert(agree(a, a1, slots[i], SLOT_SIZE as int));
            assert(agree(a1, b, slots[i], SLOT_SIZE as int));
            lemma_agree_chain(a, a1, b, slots[i], SLOT_SIZE as int);
        }
        assert(self.same_links(a, b, chain)) by {
            assert forall|k: int| 0 <= k < chain.len() implies agree(
                a,
                b,
                self.fat_pos(#[trigger] chain[k]),
                4,
            ) by {
                assert(agree(a, a1, self.fat_pos(chain[k]), 4));
                assert(agree(a1, b, self.fat_pos(chain[k]), 4));
                lemma_agree_chain(a, a1, b, self.fat_pos(chain[k]), 4);
            }
        }
        let one = seq![fresh];
        assert(self.all_in_table(one)) by {
            self.lemma_allocatable_in_table(fresh);
        }
        crate::volume::keeping::lemma_avoids_all(one);
        self.lemma_changes_keep_links(a1, b, Set::empty(), set![home as int], one);
        self.lemma_linked_frame(a1, b, one);
        assert(avoids(one, set![home as int]));
        self.lemma_changes_keep_slots(a1, b, Set::empty(), set![home as int], one);
        let inside = self.cluster_slots(fresh);
        self.lemma_bounds();
        assert((fresh - 2) * self.cluster_size() + self.cluster_size() <= (self.total_clusters - 2)
            * self.cluster_size()) by (nonlinear_arith)
            requires
                fresh + 1 <= self.total_clusters,
                self.cluster_size() > 0,
        ;
        assert forall|j: int| 0 <= j < self.slots_per_cluster() implies slot_at(
            b,
            #[trigger] inside[j],
        ) == slot_at(a1, inside[j]) by {
            self.lemma_cluster_slots_aligned(fresh, j);
            assert(agree(a1, b, inside[j], SLOT_SIZE as int));
            lemma_same_slot(a1, b, inside[j]);
        }
        home
    }

    /// A cluster without an owner is not the first cluster of a directory
    /// of a valid volume.
    pub proof fn lemma_fresh_is_no_dir(&self, a: Seq<u8>, cat: Catalog, fresh: u32, d: u32)
        requires
            self.valid(a, cat),
            !cat.owner.dom().contains(fresh),
            cat.dirs.dom().contains(d),
        ensures
            d != fresh,
    {
        assert(self.dir_valid(a, cat, d));
        self.lemma_dir_parts(a, cat, d);
        assert(cat.owner.dom().contains(cat.dirs[d].chain[0]));
    }

    /// The directories and owners that a valid catalogue holds stay as
    /// they are when a new directory and its entry come in.
    pub proof fn lemma_with_dir(
        &self,
        a: Seq<u8>,
        cat: Catalog,
        current: u32,
        t: int,
        pos: int,
        fresh: u32,
    )
        requires
            self.valid(a, cat),
            cat.dirs.dom().contains(current),
            2 <= fresh < self.total_clusters,
            !cat.owner.dom().contains(fresh),
            !cat.entries.dom().contains(pos),
        ensures
            fresh != self.boot_sector.root_cluster,
            fresh != current,
            Self::with_dir(cat, current, t, pos, fresh).dirs[current] == cat.dirs[current],
            self.chain_owned(
                Self::with_dir(cat, current, t, pos, fresh),
                cat.dirs[current].chain,
                Owner::Directory(current),
            ),
            self.parent_ok(Self::with_dir(cat, current, t, pos, fresh), current),
            self.chain_owned(
                Self::with_dir(cat, current, t, pos, fresh),
                seq![fresh],
                Owner::Directory(fresh),
            ),
            self.parent_ok(Self::with_dir(cat, current, t, pos, fresh), fresh),
            self.grown_from(cat, Self::with_dir(cat, current, t, pos, fresh), current, pos),
            self.same_entries_but(cat, Self::with_dir(cat, current, t, pos, fresh), current, pos),
            forall|c: u32|
                Self::with_dir(cat, current, t, pos, fresh).owner.dom().contains(c)
                    ==> #[trigger] self.owner_valid(
                    Self::with_dir(cat, current, t, pos, fresh),
                    c,
                ),
    {
        let next = Self::with_dir(cat, current, t, pos, fresh);
        let chain = cat.dirs[current].chain;
        self.lemma_fresh_is_no_dir(a, cat, fresh, current);
        self.lemma_fresh_is_no_dir(a, cat, fresh, self.boot_sector.root_cluster);
        assert(self.dir_valid(a, cat, current));
        self.lemma_dir_parts(a, cat, current);
        assert(self.chain_owned(next, chain, Owner::Directory(current))) by {
            assert forall|k: int| 0 <= k < chain.len() implies (#[trigger] chain[k])
                < self.total_clusters && next.owner.dom().contains(chain[k])
                && next.owner[chain[k]] == Owner::Directory(current) by {
                assert(cat.owner.dom().contains(chain[k]));
            }
        }
        if current != self.boot_sector.root_cluster {
            self.lemma_fresh_is_no_dir(a, cat, fresh, cat.dirs[current].parent);
        }
        assert(self.grown_from(cat, next, current, pos)) by {
            assert forall|d: u32| #[trigger] cat.dirs.dom().contains(d) implies next.dirs.dom().contains(
                d,
            ) && (d != current ==> next.dirs[d] == cat.dirs[d]) by {
                self.lemma_fresh_is_no_dir(a, cat, fresh, d);
            }
        }
        assert forall|c: u32| next.owner.dom().contains(c) implies #[trigger] self.owner_valid(
            next,
            c,
        ) by {
            if c != fresh {
                assert(self.owner_valid(cat, c));
                match cat.owner[c] {
                    Owner::Directory(d) => {
                        self.lemma_fresh_is_no_dir(a, cat, fresh, d);
                    },
                    Owner::File(p) => {},
                }
            } else {
                assert(seq![fresh][0] == fresh);
            }
        }
    }

    /// The entry of a new directory that went into a vacant slot of a
    /// valid volume, after the directory was set up in a free cluster,
    /// leaves a valid volume.
    pub proof fn lemma_dir_in_place(
        &self,
        a: Seq<u8>,
        cat: Catalog,
        current: u32,
        name: Seq<u8>,
        fresh: u32,
    ) -> (next: Catalog)
        requires
            self.valid(a, cat),
            cat.dirs.dom().contains(current),
            2 <= fresh < self.total_clusters,
            self.is_free(a, fresh),
            self.find(a, current, ProbeView::Vacant) is At,
            crate::names::short_name(name)[0] != SLOT_UNUSED,
            crate::names::short_name(name)[0] != SLOT_DELETED,
        ensures
            self.valid(
                self.added(
                    self.set_up(a, fresh, current),
                    current,
                    crate::edit::fresh_entry(name, fresh, true),
                ).image,
                next,
            ),
            next.lost == cat.lost,
            exists|pos: int|
                self.dir_made(
                    a,
                    self.added(
                        self.set_up(a, fresh, current),
                        current,
                        crate::edit::fresh_entry(name, fresh, true),
                    ).image,
                    cat,
                    next,
                    current,
                    crate::names::short_name(name),
                    pos,
                ),
    {
        let entry = crate::edit::fresh_entry(name, fresh, true);
        let stored = crate::names::short_name(name);
        let a1 = self.set_up(a, fresh, current);
        let t = self.lemma_vacant_slot(a, cat, current);
        let slots = self.dir_slots(cat, current);
        let pos = slots[t];
        let b = patched(a1, pos, entry);
        assert(b == self.added(a1, current, entry).image) by {
            self.lemma_set_up_apart(a, cat, current, fresh, ProbeView::Vacant);
        }
        crate::laws::lemma_entry_round_trip(stored, ATTR_DIRECTORY, fresh, 0);
        crate::volume::keeping::lemma_plain_name_is_no_dot_entry(name);
        assert(0x10u8 & 0x10u8 != 0) by (bit_vector);
        let home = self.lemma_dir_in_place_image(a, cat, current, fresh, t, entry);
        let entries = set![fresh as int];
        let clusters = set![fresh as int, home as int];
        let next = Self::with_dir(cat, current, t, pos, fresh);
        self.lemma_fresh_unowned(a, cat, fresh);
        self.lemma_with_dir(a, cat, current, t, pos, fresh);
        assert(self.dir_valid(a, cat, current));
        assert(self.dir_valid(b, next, current) && self.dir_end(b, next, current) > t
            && self.dir_end(b, next, current) >= self.dir_end(a, cat, current)) by {
            self.lemma_slot_filled(a, b, cat, next, current, t);
        }
        assert(self.dir_valid(b, next, fresh)) by {
            self.lemma_set_up(a, fresh, current);
            self.lemma_new_dir(b, next, fresh);
        }
        assert(self.entry_valid(b, next, pos)) by {
            reveal(FAT32::entry_valid);
        }
        assert(self.others_avoided(cat, entries, clusters, current, pos)) by {
            self.lemma_home_apart(a, cat, current, home);
            assert forall|d: u32| #[trigger]
                cat.dirs.dom().contains(d) && d != current implies avoids(
                cat.dirs[d].chain,
                entries,
            ) && avoids(cat.dirs[d].chain, clusters) by {
                crate::volume::adding::lemma_avoids_two(cat.dirs[d].chain, fresh as int, home as int);
            }
        }
        assert(self.slots_stay(a, b, cat, next, current, t));
        assert(self.new_is_valid(b, cat, next, entries, current, pos)) by {
            assert forall|c: u32|
                2 <= c < self.total_clusters && (entries.contains(c as int)
                    || next.owner.dom().contains(c) != cat.owner.dom().contains(c)
                    || next.lost.contains(c) != cat.lost.contains(c)) implies #[trigger] self.use_matches(
                b,
                next,
                c,
            ) by {
                assert(self.use_matches(a, cat, c));
                assert(self.linked(b, seq![fresh]));
                assert(self.fat_readable(b, seq![fresh][0]));
                assert(seq![fresh].last() == fresh);
            }
        }
        self.lemma_volume_grows(a, b, cat, next, entries, clusters, current, t, pos);
        assert(self.dir_made(a, b, cat, next, current, stored, pos)) by {
            if cat.dirs.dom().contains(fresh) {
                self.lemma_fresh_is_no_dir(a, cat, fresh, fresh);
            }
        }
        next
    }

    /// What a new directory with its entry in a fresh cluster behind its
    /// full parent leaves in the image: the new directory as set up, the
    /// longer chain of the parent with the entry, and the old slots of the
    /// parent as they were.
    pub proof fn lemma_dir_behind_image(
        &self,
        a: Seq<u8>,
        cat: Catalog,
        current: u32,
        fresh: u32,
        more: u32,
        entry: Seq<u8>,
    )
        requires
            self.valid(a, cat),
            cat.dirs.dom().contains(current),
            2 <= fresh < self.total_clusters,
            self.is_free(a, fresh),
            2 <= more < self.total_clusters,
            self.is_free(self.set_up(a, fresh, current), more),
            entry.len() == SLOT_SIZE,
        ensures
            more != fresh,
            self.is_free(a, more),
            !cat.dirs[current].chain.contains(more),
            !cat.dirs[current].chain.contains(fresh),
            self.changed_within(
                a,
                self.lengthened(
                    self.set_up(a, fresh, current),
                    cat.dirs[current].chain.last(),
                    more,
                    entry,
                ),
                set![fresh as int, more as int, cat.dirs[current].chain.last() as int],
                set![fresh as int, more as int],
            ),
            same_slots(
                a,
                self.lengthened(
                    self.set_up(a, fresh, current),
                    cat.dirs[current].chain.last(),
                    more,
                    entry,
                ),
                self.dir_slots(cat, current),
                self.dir_slots(cat, current).len() as int,
            ),
            same_slots(
                self.set_up(a, fresh, current),
                self.lengthened(
                    self.set_up(a, fresh, current),
                    cat.dirs[current].chain.last(),
                    more,
                    entry,
                ),
                self.dir_slots(cat, current),
                self.dir_slots(cat, current).len() as int,
            ),
            self.linked(
                self.lengthened(
                    self.set_up(a, fresh, current),
                    cat.dirs[current].chain.last(),
                    more,
                    entry,
                ),
                seq![fresh],
            ),
            forall|j: int|
                0 <= j < self.slots_per_cluster() ==> slot_at(
                    self.lengthened(
                        self.set_up(a, fresh, current),
                        cat.dirs[current].chain.last(),
                        more,
                        entry,
                    ),
                    #[trigger] self.cluster_slots(fresh)[j],
                ) == slot_at(self.set_up(a, fresh, current), self.cluster_slots(fresh)[j]),
    {
        let a1 = self.set_up(a, fresh, current);
        let chain = cat.dirs[current].chain;
        let last = chain.last();
        let slots = self.dir_slots(cat, current);
        let b = self.lengthened(a1, last, more, entry);
        self.lemma_set_up(a, fresh, current);
        self.lemma_set_up_apart(a, cat, current, fresh, ProbeView::Vacant);
        self.lemma_fresh_unowned(a, cat, fresh);
        assert(self.dir_valid(a, cat, current));
        self.lemma_dir_found(a, cat, current);
        self.lemma_dir_parts(a, cat, current);
        self.lemma_dir_parts(a1, cat, current);
        // The second fresh cluster is another one, and free from the start.
        assert(seq![fresh][0] == fresh);
        assert(seq![fresh].last() == fresh);
        assert(more != fresh);
        self.lemma_allocatable_in_table(more);
        self.lemma_changes_keep_use(a, a1, set![fresh as int], set![fresh as int], more);
        self.lemma_fresh_unowned(a, cat, more);
        assert(!chain.contains(more)) by {
            if chain.contains(more) {
                let k = choose|k: int| 0 <= k < chain.len() && chain[k] == more;
                assert(cat.owner.dom().contains(chain[k]));
            }
        }
        assert(!chain.contains(fresh)) by {
            if chain.contains(fresh) {
                let k = choose|k: int| 0 <= k < chain.len() && chain[k] == fresh;
                assert(cat.owner.dom().contains(chain[k]));
            }
        }
        assert forall|k: int| 0 <= k < chain.len() implies (#[trigger] chain[k])
            < self.total_clusters by {}
        self.lemma_lengthened(a1, chain, more, entry);
        self.lemma_changes_compose(
            a,
            a1,
            b,
            set![fresh as int],
            set![fresh as int],
            set![more as int, last as int],
            set![more as int],
        );
        self.lemma_changes_widen(
            a,
            b,
            set![fresh as int] + set![more as int, last as int],
            set![fresh as int] + set![more as int],
            set![fresh as int, more as int, last as int],
            set![fresh as int, more as int],
        );
        assert forall|k: int| 0 <= k < chain.len() implies (#[trigger] chain[k]) >= 2 by {}
        assert(avoids(chain, set![more as int]));
        self.lemma_changes_keep_slots(
            a1,
            b,
            set![more as int, last as int],
            set![more as int],
            chain,
        );
        assert forall|i: int| 0 <= i < slots.len() implies agree(
            a,
            b,
            #[trigger] slots[i],
            SLOT_SIZE as int,
        ) by {
            assert(agree(a, a1, slots[i], SLOT_SIZE as int));
            assert(agree(a1, b, slots[i], SLOT_SIZE as int));
            lemma_agree_chain(a, a1, b, slots[i], SLOT_SIZE as int);
        }
        // The new directory.
        let one = seq![fresh];
        assert(self.all_in_table(one)) by {
            self.lemma_allocatable_in_table(fresh);
        }
        assert(cat.owner.dom().contains(chain[chain.len() - 1]));
        assert(avoids(one, set![more as int, last as int]));
        assert(avoids(one, set![more as int]));
        self.lemma_changes_keep_links(a1, b, set![more as int, last as int], set![more as int], one);
        self.lemma_linked_frame(a1, b, one);
        self.lemma_changes_keep_slots(a1, b, set![more as int, last as int], set![more as int], one);
        let inside = self.cluster_slots(fresh);
        self.lemma_bounds();
        assert((fresh - 2) * self.cluster_size() + self.cluster_size() <= (self.total_clusters - 2)
            * self.cluster_size()) by (nonlinear_arith)
            requires
                fresh + 1 <= self.total_clusters,
                self.cluster_size() > 0,
        ;
        assert forall|j: int| 0 <= j < self.slots_per_cluster() implies slot_at(
            b,
            #[trigger] inside[j],
        ) == slot_at(a1, inside[j]) by {
            self.lemma_cluster_slots_aligned(fresh, j);
            assert(agree(a1, b, inside[j], SLOT_SIZE as int));
            lemma_same_slot(a1, b, inside[j]);
        }
    }

    /// What the catalogue with a longer directory and a new directory below
    /// it holds, where it comes from a valid catalogue.
    pub proof fn lemma_with_dir_behind(
        &self,
        a: Seq<u8>,
        cat: Catalog,
        current: u32,
        t: int,
        pos: int,
        fresh: u32,
        more: u32,
    )
        requires
            self.valid(a, cat),
            cat.dirs.dom().contains(current),
            2 <= fresh < self.total_clusters,
            2 <= more < self.total_clusters,
            more != fresh,
            !cat.owner.dom().contains(fresh),
            !cat.owner.dom().contains(more),
            !cat.entries.dom().contains(pos),
        ensures
            fresh != self.boot_sector.root_cluster,
            fresh != current,
            Self::with_dir(Self::with_longer_dir(cat, current, more), current, t, pos, fresh).dirs[current].chain
                == cat.dirs[current].chain.push(more),
            Self::with_dir(Self::with_longer_dir(cat, current, more), current, t, pos, fresh).dirs[current].parent
                == cat.dirs[current].parent,
            self.chain_owned(
                Self::with_dir(Self::with_longer_dir(cat, current, more), current, t, pos, fresh),
                cat.dirs[current].chain.push(more),
                Owner::Directory(current),
            ),
            self.parent_ok(
                Self::with_dir(Self::with_longer_dir(cat, current, more), current, t, pos, fresh),
                current,
            ),
            self.chain_owned(
                Self::with_dir(Self::with_longer_dir(cat, current, more), current, t, pos, fresh),
                seq![fresh],
                Owner::Directory(fresh),
            ),
            self.parent_ok(
                Self::with_dir(Self::with_longer_dir(cat, current, more), current, t, pos, fresh),
                fresh,
            ),
            self.grown_from(
                cat,
                Self::with_dir(Self::with_longer_dir(cat, current, more), current, t, pos, fresh),
                current,
                pos,
            ),
            self.same_entries(
                cat,
                Self::with_dir(Self::with_longer_dir(cat, current, more), current, t, pos, fresh),
                current,
            ),
            forall|c: u32|
                Self::with_dir(
                    Self::with_longer_dir(cat, current, more),
                    current,
                    t,
                    pos,
                    fresh,
                ).owner.dom().contains(c) ==> #[trigger] self.owner_valid(
                    Self::with_dir(Self::with_longer_dir(cat, current, more), current, t, pos, fresh),
                    c,
                ),
    {
        let longer_cat = Self::with_longer_dir(cat, current, more);
        let next = Self::with_dir(longer_cat, current, t, pos, fresh);
        let chain = cat.dirs[current].chain;
        let longer = chain.push(more);
        self.lemma_fresh_is_no_dir(a, cat, fresh, current);
        self.lemma_fresh_is_no_dir(a, cat, fresh, self.boot_sector.root_cluster);
        assert(self.dir_valid(a, cat, current));
        self.lemma_dir_parts(a, cat, current);
        self.lemma_longer_owned(a, cat, longer_cat, current, more);
        assert(self.chain_owned(next, longer, Owner::Directory(current))) by {
            assert forall|k: int| 0 <= k < longer.len() implies (#[trigger] longer[k])
                < self.total_clusters && next.owner.dom().contains(longer[k])
                && next.owner[longer[k]] == Owner::Directory(current) by {
                assert(longer_cat.owner.dom().contains(longer[k]));
                if k < chain.len() {
                    assert(longer[k] == chain[k]);
                    assert(cat.owner.dom().contains(chain[k]));
                }
            }
        }
        if current != self.boot_sector.root_cluster {
            self.lemma_fresh_is_no_dir(a, cat, fresh, cat.dirs[current].parent);
        }
        assert(self.grown_from(cat, next, current, pos)) by {
            assert forall|d: u32| #[trigger] cat.dirs.dom().contains(d) implies next.dirs.dom().contains(
                d,
            ) && (d != current ==> next.dirs[d] == cat.dirs[d]) by {
                self.lemma_fresh_is_no_dir(a, cat, fresh, d);
            }
        }
        assert(longer[chain.len() as int] == more);
        assert forall|c: u32| next.owner.dom().contains(c) implies #[trigger] self.owner_valid(
            next,
            c,
        ) by {
            if c == fresh {
                assert(seq![fresh][0] == fresh);
            } else if c == more {
            } else {
                assert(self.owner_valid(cat, c));
                match cat.owner[c] {
                    Owner::Directory(d) => {
                        self.lemma_fresh_is_no_dir(a, cat, fresh, d);
                        if d == current {
                            let k = choose|k: int| 0 <= k < chain.len() && chain[k] == c;
                            assert(longer[k] == c);
                        }
                    },
                    Owner::File(p) => {},
                }
            }
        }
    }

    /// The entry of a new directory that went into a fresh cluster behind
    /// its full parent, after the directory was set up in a free cluster,
    /// leaves a valid volume.
    pub proof fn lemma_dir_behind(
        &self,
        a: Seq<u8>,
        cat: Catalog,
        current: u32,
        name: Seq<u8>,
        fresh: u32,
    ) -> (next: Catalog)
        requires
            self.valid(a, cat),
            cat.dirs.dom().contains(current),
            2 <= fresh < self.total_clusters,
            self.is_free(a, fresh),
            self.find(a, current, ProbeView::Vacant) is Ended,
            self.added(
                self.set_up(a, fresh, current),
                current,
                crate::edit::fresh_entry(name, fresh, true),
            ).result is Ok,
            crate::names::short_name(name)[0] != SLOT_UNUSED,
            crate::names::short_name(name)[0] != SLOT_DELETED,
        ensures
            self.valid(
                self.added(
                    self.set_up(a, fresh, current),
                    current,
                    crate::edit::fresh_entry(name, fresh, true),
                ).image,
                next,
            ),
            next.lost == cat.lost,
            exists|pos: int|
                self.dir_made(
                    a,
                    self.added(
                        self.set_up(a, fresh, current),
                        current,
                        crate::edit::fresh_entry(name, fresh, true),
                    ).image,
                    cat,
                    next,
                    current,
                    crate::names::short_name(name),
                    pos,
                ),
    {
        let entry = crate::edit::fresh_entry(name, fresh, true);
        let stored = crate::names::short_name(name);
        let a1 = self.set_up(a, fresh, current);
        let chain = cat.dirs[current].chain;
        let last = chain.last();
        let slots = self.dir_slots(cat, current);
        let len = slots.len() as int;
        assert(self.dir_valid(a, cat, current));
        self.lemma_dir_found(a, cat, current);
        self.lemma_set_up_apart(a, cat, current, fresh, ProbeView::Vacant);
        self.lemma_set_up(a, fresh, current);
        self.lemma_dir_found(a1, cat, current);
        self.lemma_dir_parts(a1, cat, current);
        assert(self.dir_end(a1, cat, current) == len) by {
            lemma_scan_first(a1, slots, ProbeView::Vacant, 0);
            lemma_scan_first(a1, slots, ProbeView::End, 0);
            let end = self.dir_end(a1, cat, current);
            if end < len {
                assert(stops_at(a1, slots, ProbeView::End, end));
                assert(!stops_at(a1, slots, ProbeView::Vacant, end));
            }
        }
        self.lemma_free_scan(a1, crate::table::FIRST_DATA_CLUSTER);
        let more = self.free_scan(a1, crate::table::FIRST_DATA_CLUSTER)->Free_0;
        let pos = self.cluster_offset(more);
        let b = self.lengthened(a1, last, more, entry);
        self.lemma_dir_behind_image(a, cat, current, fresh, more, entry);
        assert forall|k: int| 0 <= k < chain.len() implies (#[trigger] chain[k])
            < self.total_clusters by {}
        self.lemma_lengthened(a1, chain, more, entry);
        assert(b == self.added(a1, current, entry).image);
        crate::laws::lemma_entry_round_trip(stored, ATTR_DIRECTORY, fresh, 0);
        crate::volume::keeping::lemma_plain_name_is_no_dot_entry(name);
        assert(0x10u8 & 0x10u8 != 0) by (bit_vector);
        let entries = set![fresh as int, more as int, last as int];
        let clusters = set![fresh as int, more as int];
        let next = Self::with_dir(Self::with_longer_dir(cat, current, more), current, len, pos, fresh);
        self.lemma_fresh_unowned(a, cat, fresh);
        self.lemma_fresh_unowned(a, cat, more);
        self.lemma_no_entry_in_fresh(a, cat, more);
        self.lemma_with_dir_behind(a, cat, current, len, pos, fresh, more);
        assert(self.dir_valid(b, next, current) && self.dir_end(b, next, current) == len + 1
            && self.dir_slots(next, current) == slots + self.cluster_slots(more)) by {
            self.lemma_dir_extended(a1, b, cat, next, current, more);
        }
        assert(self.dir_valid(b, next, fresh)) by {
            self.lemma_new_dir(b, next, fresh);
        }
        assert(self.entry_valid(b, next, pos)) by {
            reveal(FAT32::entry_valid);
        }
        assert(self.others_avoided(cat, entries, clusters, current, pos)) by {
            assert(cat.owner.dom().contains(chain[chain.len() - 1]));
            assert forall|d: u32| #[trigger]
                cat.dirs.dom().contains(d) && d != current implies avoids(
                cat.dirs[d].chain,
                entries,
            ) && avoids(cat.dirs[d].chain, clusters) by {
                assert(self.dir_valid(a, cat, d));
                self.lemma_dir_parts(a, cat, d);
                self.lemma_owner_apart(cat, cat.dirs[d].chain, Owner::Directory(d), last);
                Self::lemma_avoids_three(cat.dirs[d].chain, fresh as int, more as int, last as int);
                crate::volume::adding::lemma_avoids_two(cat.dirs[d].chain, fresh as int, more as int);
            }
            assert forall|p: int| #[trigger]
                cat.entries.dom().contains(p) && p != pos && !cat.entries[p].directory implies avoids(
                cat.entries[p].chain,
                entries,
            ) by {
                assert(self.entry_valid(a, cat, p));
                self.lemma_entry_parts(a, cat, p);
                self.lemma_owner_apart(cat, cat.entries[p].chain, Owner::File(p), last);
                Self::lemma_avoids_three(cat.entries[p].chain, fresh as int, more as int, last as int);
            }
        }
        assert(self.slots_stay(a, b, cat, next, current, len)) by {
            assert forall|i: int| 0 <= i < slots.len() implies #[trigger] self.dir_slots(
                next,
                current,
            )[i] == slots[i] by {}
        }
        assert(self.new_is_valid(b, cat, next, entries, current, pos)) by {
            let longer = chain.push(more);
            assert(longer[chain.len() as int] == more);
            assert(longer[chain.len() - 1] == last);
            assert(self.linked(b, longer));
            assert forall|c: u32|
                2 <= c < self.total_clusters && (entries.contains(c as int)
                    || next.owner.dom().contains(c) != cat.owner.dom().contains(c)
                    || next.lost.contains(c) != cat.lost.contains(c)) implies #[trigger] self.use_matches(
                b,
                next,
                c,
            ) by {
                assert(self.use_matches(a, cat, c));
                assert(self.linked(b, seq![fresh]));
                assert(self.fat_readable(b, seq![fresh][0]));
                assert(seq![fresh].last() == fresh);
                assert(self.fat_readable(b, longer[chain.len() - 1]));
                assert(self.fat_readable(b, longer[chain.len() as int]));
                assert(self.next_of(b, longer[chain.len() - 1]) == longer[chain.len() as int]);
                assert(cat.owner.dom().contains(chain[chain.len() - 1]));
            }
        }
        self.lemma_volume_grows(a, b, cat, next, entries, clusters, current, len, pos);
        assert(self.dir_made(a, b, cat, next, current, stored, pos)) by {
            if cat.dirs.dom().contains(fresh) {
                self.lemma_fresh_is_no_dir(a, cat, fresh, fresh);
            }
        }
        next
    }

    /// A chain that avoids three clusters avoids the three together.
    pub proof fn lemma_avoids_three(chain: Seq<u32>, x: int, y: int, z: int)
        requires
            avoids(chain, set![x]),
            avoids(chain, set![y]),
            avoids(chain, set![z]),
        ensures
            avoids(chain, set![x, y, z]),
    {
        assert forall|k: int| 0 <= k < chain.len() implies !set![x, y, z].contains(
            #[trigger] chain[k] as int,
        ) by {
            assert(!set![x].contains(chain[k] as int));
            assert(!set![y].contains(chain[k] as int));
            assert(!set![z].contains(chain[k] as int));
        }
    }

    /// What a successful `mkdir` does: it sets up the first free cluster as
    /// a directory and adds an entry for it.
    pub proof fn lemma_mkdir_effect(&self, image: Seq<u8>, current: u32, name: Seq<u8>) -> (fresh: u32)
        requires
            self.covers(image),
            crate::commands::mkdir_outcome(self, image, current, name).result is Ok,
        ensures
            2 <= fresh < self.total_clusters,
            self.is_free(image, fresh),
            self.added(
                self.set_up(image, fresh, current),
                current,
                crate::edit::fresh_entry(name, fresh, true),
            ).result is Ok,
            crate::commands::mkdir_outcome(self, image, current, name).image == self.added(
                self.set_up(image, fresh, current),
                current,
                crate::edit::fresh_entry(name, fresh, true),
            ).image,
    {
        self.lemma_free_scan(image, crate::table::FIRST_DATA_CLUSTER);
        let fresh = self.free_scan(image, crate::table::FIRST_DATA_CLUSTER)->Free_0;
        self.lemma_set_up(image, fresh, current);
        fresh
    }

    /// Creating a directory keeps a valid volume valid: the catalogue
    /// gains the directory and the entry that names it, and where the
    /// parent was full, the parent gains a cluster.
    ///
    /// The law leaves out names whose stored form begins with the byte
    /// `0x00` or `0xE5`: the entry of such a name is taken for the end of
    /// the directory or for a deleted slot.
    pub proof fn law_mkdir_keeps_volume(
        &self,
        image: Seq<u8>,
        cat: Catalog,
        current: u32,
        name: Seq<u8>,
    ) -> (next: Catalog)
        requires
            self.valid(image, cat),
            cat.dirs.dom().contains(current),
            crate::commands::mkdir_outcome(self, image, current, name).result is Ok,
            crate::names::short_name(name)[0] != SLOT_UNUSED,
            crate::names::short_name(name)[0] != SLOT_DELETED,
        ensures
            self.valid(crate::commands::mkdir_outcome(self, image, current, name).image, next),
            next.lost == cat.lost,
            exists|pos: int|
                self.dir_made(
                    image,
                    crate::commands::mkdir_outcome(self, image, current, name).image,
                    cat,
                    next,
                    current,
                    crate::names::short_name(name),
                    pos,
                ),
    {
        let fresh = self.lemma_mkdir_effect(image, current, name);
        self.lemma_set_up_apart(image, cat, current, fresh, ProbeView::Vacant);
        if self.find(image, current, ProbeView::Vacant) is At {
            self.lemma_dir_in_place(image, cat, current, name, fresh)
        } else {
            self.lemma_dir_behind(image, cat, current, name, fresh)
        }
    }
}

} // verus!
