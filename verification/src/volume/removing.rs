//! Removing a file or an empty directory keeps a valid volume valid.

use vstd::prelude::*;
use crate::changes::{avoids, cluster_set};
use crate::commands::{first_named, is_dot_entry, rm_outcome, rmdir_outcome};
use crate::directory::{
    is_live, scan_from, slot_at, slot_entry, slot_first_cluster, slot_name, ProbeView, SLOT_SIZE,
    SLOT_DELETED, SLOT_UNUSED,
};
use crate::fat32::FAT32;
use crate::frame::{agree, lemma_agree_chain, lemma_scan_first, same_slots};
use crate::image::{in_bounds, patched};
use crate::laws::named_at;
use crate::names::short_name;
use crate::open_files::OpenFiles;
use crate::table::chain_limit;
use crate::volume::{Catalog, Owner};

verus! {

impl FAT32 {
    /// The image after the entry in the slot at `pos` has been marked
    /// deleted and the FAT entries of `chain` have been set to zero.
    pub open spec fn without(&self, image: Seq<u8>, pos: int, chain: Seq<u32>) -> Seq<u8> {
        self.released(patched(image, pos, seq![SLOT_DELETED]), chain)
    }

    /// What marking slot `t` of a directory deleted and releasing a chain
    /// with another owner changes, and what it leaves alone.
    pub proof fn lemma_without(
        &self,
        a: Seq<u8>,
        cat: Catalog,
        current: u32,
        t: int,
        chain: Seq<u32>,
        who: Owner,
    ) -> (home: u32)
        requires
            self.valid(a, cat),
            cat.dirs.dom().contains(current),
            0 <= t < self.dir_slots(cat, current).len(),
            self.chain_owned(cat, chain, who),
            who != Owner::Directory(current),
            chain.len() > 0 ==> self.linked(a, chain),
        ensures
            cat.owner.dom().contains(home),
            cat.owner[home] == Owner::Directory(current),
            self.changed_within(
                a,
                self.without(a, self.dir_slots(cat, current)[t], chain),
                cluster_set(chain),
                set![home as int],
            ),
            forall|i: int|
                0 <= i < self.dir_slots(cat, current).len() && i != t ==> agree(
                    a,
                    self.without(a, self.dir_slots(cat, current)[t], chain),
                    #[trigger] self.dir_slots(cat, current)[i],
                    SLOT_SIZE as int,
                ),
            self.same_links(
                a,
                self.without(a, self.dir_slots(cat, current)[t], chain),
                cat.dirs[current].chain,
            ),
            slot_at(self.without(a, self.dir_slots(cat, current)[t], chain), self.dir_slots(cat, current)[t])[0]
                == SLOT_DELETED,
            forall|k: int|
                0 <= k < chain.len() ==> self.is_free(
                    self.without(a, self.dir_slots(cat, current)[t], chain),
                    #[trigger] chain[k],
                ),
            chain.len() > 0 ==> self.freed(
                patched(a, self.dir_slots(cat, current)[t], seq![SLOT_DELETED]),
                chain[0],
                chain_limit(patched(a, self.dir_slots(cat, current)[t], seq![SLOT_DELETED])),
            ) == (self.without(a, self.dir_slots(cat, current)[t], chain), true),
    {
        let slots = self.dir_slots(cat, current);
        let pos = slots[t];
        let mark = seq![SLOT_DELETED];
        let marked = patched(a, pos, mark);
        let b = self.released(marked, chain);
        assert(self.dir_valid(a, cat, current));
        self.lemma_dir_found(a, cat, current);
        self.lemma_dir_parts(a, cat, current);
        let home = self.lemma_slot_write_changes(a, cat, current, t, 0, mark);
        self.lemma_owned_in_table(cat, chain, who);
        self.lemma_released_changes(marked, chain);
        self.lemma_changes_compose(
            a,
            marked,
            b,
            Set::empty(),
            set![home as int],
            cluster_set(chain),
            Set::empty(),
        );
        self.lemma_changes_widen(
            a,
            b,
            Set::<int>::empty() + cluster_set(chain),
            set![home as int] + Set::<int>::empty(),
            cluster_set(chain),
            set![home as int],
        );
        // The slots of the directory lie in the data region, which the
        // release does not touch.
        let dir_chain = cat.dirs[current].chain;
        crate::volume::keeping::lemma_avoids_all(dir_chain);
        self.lemma_changes_keep_slots(marked, b, cluster_set(chain), Set::empty(), dir_chain);
        assert forall|i: int| 0 <= i < slots.len() && i != t implies agree(
            a,
            b,
            #[trigger] slots[i],
            SLOT_SIZE as int,
        ) by {
            assert(agree(marked, b, slots[i], SLOT_SIZE as int));
            lemma_agree_chain(a, marked, b, slots[i], SLOT_SIZE as int);
        }
        self.lemma_owners_apart(cat, dir_chain, Owner::Directory(current), chain, who);
        self.lemma_owned_in_table(cat, dir_chain, Owner::Directory(current));
        self.lemma_changes_keep_links(a, b, cluster_set(chain), set![home as int], dir_chain);
        assert(agree(marked, b, slots[t], SLOT_SIZE as int));
        assert(marked[pos] == SLOT_DELETED);
        assert(b[pos] == SLOT_DELETED);
        // The released clusters are free.
        crate::volume::keeping::lemma_avoids_all(chain);
        self.lemma_changes_keep_links(a, marked, Set::empty(), set![home as int], chain);
        assert forall|k: int| 0 <= k < chain.len() implies self.fat_readable(
            marked,
            #[trigger] chain[k],
        ) by {
            assert(self.linked(a, chain));
            assert(agree(a, marked, self.fat_pos(chain[k]), 4));
            self.lemma_next_of_agree(a, marked, chain[k]);
        }
        self.lemma_released(marked, chain);
        if chain.len() > 0 {
            self.lemma_linked_frame(a, marked, chain);
            self.lemma_linked_fits(marked, chain);
            self.lemma_freed_linked(marked, chain, chain_limit(marked));
        }
        home
    }

    /// The directory `d` stays in the catalogue when the entry at `pos` and
    /// the object of `who` leave it: it is recorded as before, it is not
    /// the object that leaves, and the entry that names it and its parent
    /// stay too.
    pub open spec fn dir_stays(&self, cat: Catalog, next: Catalog, pos: int, who: Owner, d: u32) -> bool {
        &&& cat.dirs.dom().contains(d)
        &&& next.dirs[d] == cat.dirs[d]
        &&& Owner::Directory(d) != who
        &&& d != self.boot_sector.root_cluster ==> cat.dirs[d].entry != pos
            && next.dirs.dom().contains(cat.dirs[d].parent)
    }

    /// The entry at `p` stays in the catalogue when the entry at `pos` and
    /// the object of `who` leave it.
    pub open spec fn entry_stays(&self, cat: Catalog, next: Catalog, pos: int, who: Owner, p: int) -> bool {
        &&& p != pos
        &&& cat.entries.dom().contains(p)
        &&& next.entries[p] == cat.entries[p]
        &&& Owner::File(p) != who
        &&& next.dirs.dom().contains(cat.entries[p].dir)
        &&& cat.entries[p].directory ==> next.dirs.dom().contains(cat.entries[p].first_cluster)
    }

    /// The second catalogue is the first without the entry at `pos` and
    /// without the object of `who`, whose clusters are those of `chain`.
    pub open spec fn taken_out(
        &self,
        cat: Catalog,
        next: Catalog,
        pos: int,
        chain: Seq<u32>,
        who: Owner,
    ) -> bool {
        &&& next.owner == cat.owner.remove_keys(chain.to_set())
        &&& next.lost == cat.lost
        &&& forall|d: u32| #[trigger]
            next.dirs.dom().contains(d) ==> self.dir_stays(cat, next, pos, who, d)
        &&& forall|p: int| #[trigger]
            next.entries.dom().contains(p) ==> self.entry_stays(cat, next, pos, who, p)
        &&& forall|p: int|
            p != pos && #[trigger] cat.entries.dom().contains(p) && next.dirs.dom().contains(
                cat.entries[p].dir,
            ) ==> next.entries.dom().contains(p)
        &&& forall|c: u32| next.owner.dom().contains(c) ==> #[trigger] self.owner_valid(next, c)
    }

    /// A chain that shares no cluster with the chain that leaves keeps its
    /// owner.
    pub proof fn lemma_still_owned(
        &self,
        cat: Catalog,
        next: Catalog,
        chain: Seq<u32>,
        other: Seq<u32>,
        whose: Owner,
    )
        requires
            next.owner == cat.owner.remove_keys(chain.to_set()),
            self.chain_owned(cat, other, whose),
            avoids(other, cluster_set(chain)),
        ensures
            self.chain_owned(next, other, whose),
    {
        assert forall|k: int| 0 <= k < other.len() implies (#[trigger] other[k])
            < self.total_clusters && next.owner.dom().contains(other[k]) && next.owner[other[k]]
            == whose by {
            assert(!cluster_set(chain).contains(other[k] as int));
            if chain.to_set().contains(other[k]) {
                let j = choose|j: int| 0 <= j < chain.len() && chain[j] == other[k];
                assert(chain[j] as int == other[k] as int);
            }
        }
    }

    /// A directory that stays is recorded by the second catalogue as by the
    /// first.
    pub proof fn lemma_dir_stays(
        &self,
        a: Seq<u8>,
        cat: Catalog,
        next: Catalog,
        pos: int,
        chain: Seq<u32>,
        who: Owner,
        d: u32,
    )
        requires
            self.valid(a, cat),
            self.taken_out(cat, next, pos, chain, who),
            self.chain_owned(cat, chain, who),
            next.dirs.dom().contains(d),
        ensures
            cat.dirs.dom().contains(d),
            avoids(cat.dirs[d].chain, cluster_set(chain)),
            next.dirs[d] == cat.dirs[d],
            self.chain_owned(next, cat.dirs[d].chain, Owner::Directory(d)),
            self.parent_ok(next, d),
    {
        assert(self.dir_stays(cat, next, pos, who, d));
        assert(self.dir_valid(a, cat, d));
        self.lemma_dir_parts(a, cat, d);
        self.lemma_owners_apart(cat, cat.dirs[d].chain, Owner::Directory(d), chain, who);
        self.lemma_still_owned(cat, next, chain, cat.dirs[d].chain, Owner::Directory(d));
        if d != self.boot_sector.root_cluster {
            let info = cat.dirs[d];
            assert(self.dir_stays(cat, next, pos, who, info.parent));
            assert(next.entries.dom().contains(info.entry));
            assert(self.entry_stays(cat, next, pos, who, info.entry));
        }
    }

    /// An entry that stays is recorded by the second catalogue as by the
    /// first.
    pub proof fn lemma_entry_stays(
        &self,
        a: Seq<u8>,
        cat: Catalog,
        next: Catalog,
        pos: int,
        chain: Seq<u32>,
        who: Owner,
        p: int,
    )
        requires
            self.valid(a, cat),
            self.taken_out(cat, next, pos, chain, who),
            self.chain_owned(cat, chain, who),
            next.entries.dom().contains(p),
        ensures
            p != pos,
            cat.entries.dom().contains(p),
            self.entry_kept(cat, next, p),
            !cat.entries[p].directory ==> avoids(cat.entries[p].chain, cluster_set(chain)),
    {
        assert(self.entry_stays(cat, next, pos, who, p));
        assert(self.entry_valid(a, cat, p));
        self.lemma_entry_parts(a, cat, p);
        let node = cat.entries[p];
        if node.directory {
            assert(self.dir_stays(cat, next, pos, who, node.first_cluster));
        } else {
            self.lemma_owners_apart(cat, node.chain, Owner::File(p), chain, who);
            self.lemma_still_owned(cat, next, chain, node.chain, Owner::File(p));
        }
    }

    /// Taking an entry and the object that it names out of a valid volume
    /// leaves a valid volume: the slot of the entry is marked deleted, the
    /// clusters of the object are released, and the catalogue loses both.
    pub proof fn lemma_taken_out(
        &self,
        a: Seq<u8>,
        cat: Catalog,
        next: Catalog,
        current: u32,
        t: int,
        chain: Seq<u32>,
        who: Owner,
    )
        requires
            self.valid(a, cat),
            next.dirs.dom().contains(current),
            next.dirs.dom().contains(self.boot_sector.root_cluster),
            0 <= t < self.dir_end(a, cat, current),
            self.chain_owned(cat, chain, who),
            chain.len() > 0 ==> self.linked(a, chain),
            self.taken_out(cat, next, self.dir_slots(cat, current)[t], chain, who),
        ensures
            self.valid(self.without(a, self.dir_slots(cat, current)[t], chain), next),
    {
        let slots = self.dir_slots(cat, current);
        let pos = slots[t];
        let b = self.without(a, pos, chain);
        let entries = cluster_set(chain);
        assert(self.dir_stays(cat, next, pos, who, current));
        assert(self.dir_valid(a, cat, current));
        self.lemma_dir_found(a, cat, current);
        let home = self.lemma_without(a, cat, current, t, chain, who);
        let clusters = set![home as int];
        self.lemma_home_apart(a, cat, current, home);
        assert forall|d: u32| next.dirs.dom().contains(d) implies #[trigger] self.dir_valid(
            b,
            next,
            d,
        ) by {
            self.lemma_dir_stays(a, cat, next, pos, chain, who, d);
            assert(self.dir_valid(a, cat, d));
            if d == current {
                assert(self.same_entries_but(cat, next, d, pos));
                assert(!is_live(slot_at(b, pos)));
                self.lemma_dir_slot_changed(a, b, cat, next, current, t);
            } else {
                assert(self.same_entries(cat, next, d)) by {
                    assert forall|p: int|
                        cat.entries.dom().contains(p) && (#[trigger] cat.entries[p]).dir
                            == d implies next.entries.dom().contains(p) && next.entries[p]
                        == cat.entries[p] by {
                        if p == pos {
                            self.lemma_current_slot(a, cat, current, t, p);
                        }
                        assert(self.entry_stays(cat, next, pos, who, p));
                    }
                }
                self.lemma_other_dir_kept(a, b, cat, next, entries, clusters, d);
            }
        }
        assert(self.dir_end(b, next, current) == self.dir_end(a, cat, current)) by {
            self.lemma_dir_stays(a, cat, next, pos, chain, who, current);
            assert(self.same_entries_but(cat, next, current, pos));
            assert(!is_live(slot_at(b, pos)));
            self.lemma_dir_slot_changed(a, b, cat, next, current, t);
        }
        assert forall|p: int| next.entries.dom().contains(p) implies #[trigger] self.entry_valid(
            b,
            next,
            p,
        ) by {
            self.lemma_entry_stays(a, cat, next, pos, chain, who, p);
            let node = cat.entries[p];
            assert(self.entry_stays(cat, next, pos, who, p));
            self.lemma_dir_stays(a, cat, next, pos, chain, who, node.dir);
            if node.dir == current {
                assert(self.entry_valid(a, cat, p));
                self.lemma_entry_parts(a, cat, p);
                self.lemma_entry_beside(a, b, cat, next, entries, clusters, current, t, p);
            } else {
                assert(self.same_entries(cat, next, node.dir)) by {
                    assert forall|q: int|
                        cat.entries.dom().contains(q) && (#[trigger] cat.entries[q]).dir
                            == node.dir implies next.entries.dom().contains(q)
                        && next.entries[q] == cat.entries[q] by {
                        if q == pos {
                            self.lemma_current_slot(a, cat, current, t, q);
                        }
                        assert(self.entry_stays(cat, next, pos, who, q));
                    }
                }
                self.lemma_entry_elsewhere(a, b, cat, next, entries, clusters, p);
            }
        }
        assert forall|c: u32| 2 <= c < self.total_clusters implies #[trigger] self.use_matches(
            b,
            next,
            c,
        ) by {
            assert(self.use_matches(a, cat, c));
            if entries.contains(c as int) {
                let k = choose|k: int| 0 <= k < chain.len() && chain[k] as int == c as int;
                assert(self.is_free(b, chain[k]));
                assert(chain.to_set().contains(chain[k]));
                assert(cat.owner.dom().contains(chain[k]));
            } else {
                if chain.to_set().contains(c) {
                    let k = choose|k: int| 0 <= k < chain.len() && chain[k] == c;
                    assert(chain[k] as int == c as int);
                }
                self.lemma_use_kept(a, b, cat, next, entries, clusters, c);
            }
        }
    }

    /// An entry of the catalogue that stands in a given slot of a
    /// directory is listed by that directory.
    pub proof fn lemma_current_slot(&self, a: Seq<u8>, cat: Catalog, current: u32, t: int, p: int)
        requires
            self.valid(a, cat),
            cat.dirs.dom().contains(current),
            0 <= t < self.dir_slots(cat, current).len(),
            cat.entries.dom().contains(p),
            p == self.dir_slots(cat, current)[t],
        ensures
            cat.entries[p].dir == current,
    {
        assert(self.entry_valid(a, cat, p));
        self.lemma_entry_parts(a, cat, p);
        let node = cat.entries[p];
        if node.dir != current {
            // Two directories have no cluster in common, so none of their
            // slots lies at the same offset.
            assert(self.dir_valid(a, cat, current));
            assert(self.dir_valid(a, cat, node.dir));
            self.lemma_dir_parts(a, cat, current);
            self.lemma_dir_parts(a, cat, node.dir);
            self.lemma_dir_found(a, cat, current);
            self.lemma_dir_found(a, cat, node.dir);
            let here = cat.dirs[current].chain;
            let there = cat.dirs[node.dir].chain;
            assert forall|k: int| 0 <= k < here.len() implies (#[trigger] here[k]) >= 2 by {}
            assert forall|k: int| 0 <= k < there.len() implies (#[trigger] there[k]) >= 2 by {}
            let k = self.lemma_slot_home(here, t);
            let j = self.lemma_slot_home(there, node.index);
            assert(cat.owner[here[k]] == Owner::Directory(current));
            assert(cat.owner[there[j]] == Owner::Directory(node.dir));
            self.lemma_clusters_apart(here[k], there[j]);
        }
    }

    /// What a successful `rm` does: it marks the first short entry with the
    /// name, which stands in the listing and is a file, as deleted, and
    /// frees the chain from the first cluster of that entry.
    pub proof fn lemma_rm_effect(
        &self,
        image: Seq<u8>,
        current: u32,
        name: Seq<u8>,
        table: &OpenFiles,
    ) -> (t: int)
        requires
            rm_outcome(self, image, current, name, table).result is Ok,
        ensures
            self.listing(image, current) is Ok,
            0 <= t < scan_from(image, self.dir_stream(image, current).slots, ProbeView::End, 0),
            named_at(image, self.dir_stream(image, current).slots, short_name(name), t),
            !slot_entry(slot_at(image, self.dir_stream(image, current).slots[t])).is_directory(),
            ({
                let pos = self.dir_stream(image, current).slots[t];
                let marked = patched(image, pos, seq![SLOT_DELETED]);
                let freed = self.freed(
                    marked,
                    slot_first_cluster(slot_at(image, pos)),
                    chain_limit(marked),
                );
                freed.1 && rm_outcome(self, image, current, name, table).image == freed.0
            }),
    {
        let slots = self.dir_stream(image, current).slots;
        self.lemma_listing_locates(image, current, short_name(name));
        lemma_scan_first(image, slots, ProbeView::Name(short_name(name)), 0);
        scan_from(image, slots, ProbeView::Name(short_name(name)), 0)
    }

    /// Removing a file keeps a valid volume valid: the catalogue loses the
    /// entry of the file, and the clusters of the file lose their owner.
    pub proof fn law_rm_keeps_volume(
        &self,
        image: Seq<u8>,
        cat: Catalog,
        current: u32,
        name: Seq<u8>,
        table: &OpenFiles,
    ) -> (next: Catalog)
        requires
            self.valid(image, cat),
            cat.dirs.dom().contains(current),
            rm_outcome(self, image, current, name, table).result is Ok,
        ensures
            self.valid(rm_outcome(self, image, current, name, table).image, next),
            next.dirs == cat.dirs,
            next.lost == cat.lost,
    {
        let a = image;
        assert(self.dir_valid(a, cat, current));
        self.lemma_dir_found(a, cat, current);
        let slots = self.dir_slots(cat, current);
        let t = self.lemma_rm_effect(a, current, name, table);
        let pos = slots[t];
        self.lemma_listed(a, cat, current, t);
        assert(cat.entries.dom().contains(pos));
        assert(self.entry_valid(a, cat, pos));
        self.lemma_entry_parts(a, cat, pos);
        let node = cat.entries[pos];
        let chain = node.chain;
        let who = Owner::File(pos);
        let next = Catalog {
            dirs: cat.dirs,
            entries: cat.entries.remove(pos),
            owner: cat.owner.remove_keys(chain.to_set()),
            lost: cat.lost,
        };
        assert(self.taken_out(cat, next, pos, chain, who)) by {
            assert forall|d: u32| #[trigger] next.dirs.dom().contains(d) implies self.dir_stays(
                cat,
                next,
                pos,
                who,
                d,
            ) by {
                assert(self.dir_valid(a, cat, d));
                self.lemma_dir_parts(a, cat, d);
            }
            assert forall|p: int| #[trigger] next.entries.dom().contains(p) implies self.entry_stays(
                cat,
                next,
                pos,
                who,
                p,
            ) by {
                assert(self.entry_valid(a, cat, p));
                self.lemma_entry_parts(a, cat, p);
            }
            assert forall|c: u32| next.owner.dom().contains(c) implies #[trigger] self.owner_valid(
                next,
                c,
            ) by {
                assert(self.owner_valid(cat, c));
                assert(!chain.to_set().contains(c));
            }
        }
        let marked = patched(a, pos, seq![SLOT_DELETED]);
        if chain.len() == 0 {
            assert(self.freed(marked, 0, chain_limit(marked)) == (marked, true));
            assert(self.without(a, pos, chain) == marked);
        } else {
            let home = self.lemma_without(a, cat, current, t, chain, who);
        }
        self.lemma_taken_out(a, cat, next, current, t, chain, who);
        next
    }

    /// The entry of every short slot among the first `upto` slots stands in
    /// the listing of those slots.
    pub proof fn lemma_live_entry_listed(image: Seq<u8>, slots: Seq<int>, upto: int, i: int)
        requires
            0 <= i < upto,
            is_live(slot_at(image, slots[i])),
        ensures
            crate::directory::live_entries(image, slots, upto).contains(
                slot_entry(slot_at(image, slots[i])),
            ),
        decreases upto,
    {
        let all = crate::directory::live_entries(image, slots, upto);
        let before = crate::directory::live_entries(image, slots, upto - 1);
        let last = slot_at(image, slots[upto - 1]);
        if i == upto - 1 {
            assert(all == before.push(slot_entry(last)));
            assert(all[before.len() as int] == slot_entry(last));
        } else {
            Self::lemma_live_entry_listed(image, slots, upto - 1, i);
            let j = choose|j: int|
                0 <= j < before.len() && before[j] == slot_entry(slot_at(image, slots[i]));
            if is_live(last) {
                assert(all == before.push(slot_entry(last)));
                assert(all[j] == before[j]);
            }
        }
    }

    /// What a successful `rmdir` does: it marks the first short entry with
    /// the name, which stands in the listing and is a directory that lists
    /// nothing but `.` and `..`, as deleted, and frees the chain from the
    /// first cluster of that entry.
    pub proof fn lemma_rmdir_effect(&self, image: Seq<u8>, current: u32, name: Seq<u8>) -> (t: int)
        requires
            rmdir_outcome(self, image, current, name).result is Ok,
        ensures
            !crate::commands::is_special(name),
            self.listing(image, current) is Ok,
            0 <= t < scan_from(image, self.dir_stream(image, current).slots, ProbeView::End, 0),
            named_at(image, self.dir_stream(image, current).slots, short_name(name), t),
            slot_entry(slot_at(image, self.dir_stream(image, current).slots[t])).is_directory(),
            ({
                let pos = self.dir_stream(image, current).slots[t];
                let first = slot_first_cluster(slot_at(image, pos));
                let marked = patched(image, pos, seq![SLOT_DELETED]);
                let freed = self.freed(marked, first, chain_limit(marked));
                &&& self.listing(image, first) is Ok
                &&& crate::commands::only_dot_entries(self.listing(image, first).unwrap())
                &&& freed.1
                &&& rmdir_outcome(self, image, current, name).image == freed.0
            }),
    {
        let slots = self.dir_stream(image, current).slots;
        self.lemma_listing_locates(image, current, short_name(name));
        lemma_scan_first(image, slots, ProbeView::Name(short_name(name)), 0);
        scan_from(image, slots, ProbeView::Name(short_name(name)), 0)
    }

    /// A directory that lists nothing but `.` and `..` has no entry in the
    /// catalogue.
    pub proof fn lemma_empty_directory(&self, a: Seq<u8>, cat: Catalog, d: u32, p: int)
        requires
            self.valid(a, cat),
            cat.dirs.dom().contains(d),
            crate::commands::only_dot_entries(self.listing(a, d).unwrap()),
            cat.entries.dom().contains(p),
        ensures
            cat.entries[p].dir != d,
    {
        assert(self.entry_valid(a, cat, p));
        self.lemma_entry_parts(a, cat, p);
        let node = cat.entries[p];
        if node.dir == d {
            assert(self.dir_valid(a, cat, d));
            self.lemma_dir_found(a, cat, d);
            let slots = self.dir_slots(cat, d);
            let end = self.dir_end(a, cat, d);
            Self::lemma_live_entry_listed(a, slots, end, node.index);
            let listed = self.listing(a, d).unwrap();
            let j = choose|j: int|
                0 <= j < listed.len() && listed[j] == slot_entry(slot_at(a, slots[node.index]));
            assert(is_dot_entry(listed[j].name));
        }
    }

    /// Removing an empty directory keeps a valid volume valid: the
    /// catalogue loses the directory and the entry that names it, and the
    /// clusters of the directory lose their owner.
    pub proof fn law_rmdir_keeps_volume(
        &self,
        image: Seq<u8>,
        cat: Catalog,
        current: u32,
        name: Seq<u8>,
    ) -> (next: Catalog)
        requires
            self.valid(image, cat),
            cat.dirs.dom().contains(current),
            rmdir_outcome(self, image, current, name).result is Ok,
        ensures
            self.valid(rmdir_outcome(self, image, current, name).image, next),
            next.lost == cat.lost,
    {
        let a = image;
        assert(self.dir_valid(a, cat, current));
        self.lemma_dir_found(a, cat, current);
        self.lemma_dir_parts(a, cat, current);
        let slots = self.dir_slots(cat, current);
        let t = self.lemma_rmdir_effect(a, current, name);
        let pos = slots[t];
        crate::volume::keeping::lemma_plain_name_is_no_dot_entry(name);
        self.lemma_listed(a, cat, current, t);
        assert(cat.entries.dom().contains(pos));
        assert(self.entry_valid(a, cat, pos));
        self.lemma_entry_parts(a, cat, pos);
        let node = cat.entries[pos];
        let gone = node.first_cluster;
        assert(self.dir_valid(a, cat, gone));
        self.lemma_dir_parts(a, cat, gone);
        let chain = cat.dirs[gone].chain;
        let who = Owner::Directory(gone);
        let next = Catalog {
            dirs: cat.dirs.remove(gone),
            entries: cat.entries.remove(pos),
            owner: cat.owner.remove_keys(chain.to_set()),
            lost: cat.lost,
        };
        assert(self.taken_out(cat, next, pos, chain, who)) by {
            assert forall|d: u32| #[trigger] next.dirs.dom().contains(d) implies self.dir_stays(
                cat,
                next,
                pos,
                who,
                d,
            ) by {
                assert(self.dir_valid(a, cat, d));
                self.lemma_dir_parts(a, cat, d);
                if d != self.boot_sector.root_cluster {
                    self.lemma_empty_directory(a, cat, gone, cat.dirs[d].entry);
                }
            }
            assert forall|p: int| #[trigger] next.entries.dom().contains(p) implies self.entry_stays(
                cat,
                next,
                pos,
                who,
                p,
            ) by {
                assert(self.entry_valid(a, cat, p));
                self.lemma_entry_parts(a, cat, p);
                self.lemma_empty_directory(a, cat, gone, p);
            }
            assert forall|c: u32| next.owner.dom().contains(c) implies #[trigger] self.owner_valid(
                next,
                c,
            ) by {
                assert(self.owner_valid(cat, c));
                assert(!chain.to_set().contains(c));
            }
        }
        let home = self.lemma_without(a, cat, current, t, chain, who);
        self.lemma_taken_out(a, cat, next, current, t, chain, who);
        next
    }
}

} // verus!
