//! The commands keep a valid volume valid.

use vstd::prelude::*;
use crate::commands::{has_name, is_dot_entry, is_special, rename_outcome};
use crate::directory::{
    is_live, scan_from, slot_at, slot_entry, slot_first_cluster, slot_name, ProbeView, SLOT_SIZE,
    SLOT_DELETED, SLOT_UNUSED,
};
use crate::fat32::FAT32;
use crate::frame::{
    agree, aligned, lemma_aligned_apart, lemma_patched_apart, lemma_scan_first, same_slots,
};
use crate::image::{in_bounds, patched};
use crate::laws::named_at;
use crate::names::{dot_name, first_dot, short_name, upper, DOT, SPACE};
use crate::open_files::OpenFiles;
use crate::changes::{avoids, cluster_set};
use crate::volume::{Catalog, Owner};

verus! {

/// The stored form of a name does not begin with a full stop, so it is not
/// the stored name of an entry `.` or `..`.
pub proof fn lemma_plain_name_is_no_dot_entry(name: Seq<u8>)
    ensures
        short_name(name)[0] != DOT,
        !is_dot_entry(short_name(name)),
{
    crate::names::lemma_first_dot_is_first(name, 0);
    let d = first_dot(name);
    if d > 0 {
        assert(name[0] != DOT);
        assert(short_name(name)[0] == upper(name[0]));
    } else {
        assert(short_name(name)[0] == SPACE);
    }
    assert(dot_name(1)[0] == DOT);
    assert(dot_name(2)[0] == DOT);
}

/// Every chain avoids the empty set.
pub proof fn lemma_avoids_all(chain: Seq<u32>)
    ensures
        avoids(chain, Set::empty()),
{
}

impl FAT32 {
    /// The slot with index `i` of a chain lies in the data of one of the
    /// clusters of the chain.
    pub proof fn lemma_slot_home(&self, chain: Seq<u32>, i: int) -> (k: int)
        requires
            self.sound(),
            forall|k: int| 0 <= k < chain.len() ==> (#[trigger] chain[k]) >= 2,
            0 <= i < self.chain_slots(chain).len(),
        ensures
            0 <= k < chain.len(),
            self.cluster_offset(chain[k]) <= self.chain_slots(chain)[i],
            self.chain_slots(chain)[i] + SLOT_SIZE <= self.cluster_offset(chain[k])
                + self.cluster_size(),
        decreases chain.len(),
    {
        let front = chain.drop_last();
        let head = self.chain_slots(front);
        if i < head.len() {
            assert forall|k: int| 0 <= k < front.len() implies (#[trigger] front[k]) >= 2 by {
                assert(front[k] == chain[k]);
            }
            let k = self.lemma_slot_home(front, i);
            assert(front[k] == chain[k]);
            assert(self.chain_slots(chain)[i] == head[i]);
            k
        } else {
            let last = chain.last();
            assert(chain[chain.len() - 1] >= 2);
            self.lemma_cluster_slots_aligned(last, i - head.len());
            assert(self.chain_slots(chain)[i] == self.cluster_slots(last)[i - head.len()]);
            chain.len() - 1
        }
    }

    /// The second catalogue records the directory `d` as the first does:
    /// the same chain with the same owner, the same parent, and the same
    /// entries.
    pub open spec fn dir_kept(&self, cat: Catalog, next: Catalog, d: u32) -> bool {
        &&& next.dirs.dom().contains(d)
        &&& next.dirs[d] == cat.dirs[d]
        &&& self.chain_owned(next, cat.dirs[d].chain, Owner::Directory(d))
        &&& self.parent_ok(next, d)
        &&& self.same_entries(cat, next, d)
    }

    /// The second catalogue records the entry in the slot at `pos` as the
    /// first does, with the directory that it names or the chain that it
    /// owns.
    pub open spec fn entry_kept(&self, cat: Catalog, next: Catalog, pos: int) -> bool {
        let node = cat.entries[pos];
        &&& next.entries.dom().contains(pos)
        &&& next.entries[pos] == node
        &&& next.dirs.dom().contains(node.dir)
        &&& node.directory ==> next.dirs.dom().contains(node.first_cluster)
            && next.dirs[node.first_cluster].entry == pos && next.dirs[node.first_cluster].parent
            == node.dir
        &&& !node.directory ==> self.chain_owned(next, node.chain, Owner::File(pos))
    }

    /// A valid catalogue keeps its own directories.
    pub proof fn lemma_dir_kept_same(&self, image: Seq<u8>, cat: Catalog, d: u32)
        requires
            self.dir_valid(image, cat, d),
            cat.dirs.dom().contains(d),
        ensures
            self.dir_kept(cat, cat, d),
    {
        self.lemma_dir_parts(image, cat, d);
    }

    /// A valid catalogue keeps its own entries.
    pub proof fn lemma_entry_kept_same(&self, image: Seq<u8>, cat: Catalog, pos: int)
        requires
            self.entry_valid(image, cat, pos),
            cat.entries.dom().contains(pos),
        ensures
            self.entry_kept(cat, cat, pos),
    {
        self.lemma_entry_parts(image, cat, pos);
    }

    /// A directory stays valid under a change that touches none of its FAT
    /// entries and clusters, in a catalogue that records it as before.
    pub proof fn lemma_other_dir_kept(
        &self,
        a: Seq<u8>,
        b: Seq<u8>,
        cat: Catalog,
        next: Catalog,
        entries: Set<int>,
        clusters: Set<int>,
        d: u32,
    )
        requires
            self.covers(a),
            self.dir_valid(a, cat, d),
            self.changed_within(a, b, entries, clusters),
            avoids(cat.dirs[d].chain, entries),
            avoids(cat.dirs[d].chain, clusters),
            self.dir_kept(cat, next, d),
        ensures
            self.dir_valid(b, next, d),
            self.dir_end(b, next, d) == self.dir_end(a, cat, d),
            self.dir_slots(next, d) == self.dir_slots(cat, d),
            same_slots(a, b, self.dir_slots(cat, d), self.dir_slots(cat, d).len() as int),
    {
        let chain = cat.dirs[d].chain;
        self.lemma_dir_found(a, cat, d);
        self.lemma_dir_parts(a, cat, d);
        assert forall|k: int| 0 <= k < chain.len() implies (#[trigger] chain[k]) >= 2 by {}
        self.lemma_changes_keep_links(a, b, entries, clusters, chain);
        self.lemma_changes_keep_slots(a, b, entries, clusters, chain);
        self.lemma_dir_frame(a, b, cat, next, d);
    }

    /// An entry stays valid under a change that leaves its slot alone and
    /// touches no FAT entry of its chain, in a catalogue that records it as
    /// before and in a directory whose listing still reaches it.
    pub proof fn lemma_entry_kept(
        &self,
        a: Seq<u8>,
        b: Seq<u8>,
        cat: Catalog,
        next: Catalog,
        entries: Set<int>,
        clusters: Set<int>,
        pos: int,
    )
        requires
            self.covers(a),
            self.entry_valid(a, cat, pos),
            self.dir_valid(a, cat, cat.entries[pos].dir),
            self.changed_within(a, b, entries, clusters),
            agree(a, b, pos, SLOT_SIZE as int),
            self.entry_kept(cat, next, pos),
            self.dir_slots(next, cat.entries[pos].dir)[cat.entries[pos].index] == pos,
            cat.entries[pos].index < self.dir_end(b, next, cat.entries[pos].dir),
            !cat.entries[pos].directory ==> avoids(cat.entries[pos].chain, entries),
        ensures
            self.entry_valid(b, next, pos),
    {
        self.lemma_entry_parts(a, cat, pos);
        let node = cat.entries[pos];
        self.lemma_dir_found(a, cat, node.dir);
        if !node.directory {
            self.lemma_owned_in_table(cat, node.chain, Owner::File(pos));
            self.lemma_changes_keep_links(a, b, entries, clusters, node.chain);
        }
        self.lemma_entry_frame(a, b, cat, next, pos);
    }

    /// An entry of a directory that a change has left alone stays valid,
    /// where the change touches no FAT entry of its chain and the catalogue
    /// records the entry and its directory as before.
    pub proof fn lemma_entry_elsewhere(
        &self,
        a: Seq<u8>,
        b: Seq<u8>,
        cat: Catalog,
        next: Catalog,
        entries: Set<int>,
        clusters: Set<int>,
        pos: int,
    )
        requires
            self.valid(a, cat),
            cat.entries.dom().contains(pos),
            self.changed_within(a, b, entries, clusters),
            avoids(cat.dirs[cat.entries[pos].dir].chain, entries),
            avoids(cat.dirs[cat.entries[pos].dir].chain, clusters),
            self.dir_kept(cat, next, cat.entries[pos].dir),
            self.entry_kept(cat, next, pos),
            !cat.entries[pos].directory ==> avoids(cat.entries[pos].chain, entries),
        ensures
            self.entry_valid(b, next, pos),
            in_bounds(a, pos, SLOT_SIZE as int),
            agree(a, b, pos, SLOT_SIZE as int),
    {
        assert(self.entry_valid(a, cat, pos));
        self.lemma_entry_parts(a, cat, pos);
        let node = cat.entries[pos];
        assert(self.dir_valid(a, cat, node.dir));
        self.lemma_dir_found(a, cat, node.dir);
        self.lemma_other_dir_kept(a, b, cat, next, entries, clusters, node.dir);
        assert(agree(a, b, self.dir_slots(cat, node.dir)[node.index], SLOT_SIZE as int));
        self.lemma_entry_kept(a, b, cat, next, entries, clusters, pos);
    }

    /// The clusters of two chains with different owners differ.
    pub proof fn lemma_owners_apart(
        &self,
        cat: Catalog,
        chain: Seq<u32>,
        who: Owner,
        other: Seq<u32>,
        whose: Owner,
    )
        requires
            self.chain_owned(cat, chain, who),
            self.chain_owned(cat, other, whose),
            who != whose,
        ensures
            avoids(chain, cluster_set(other)),
    {
        assert forall|k: int| 0 <= k < chain.len() implies !cluster_set(other).contains(
            #[trigger] chain[k] as int,
        ) by {
            if cluster_set(other).contains(chain[k] as int) {
                let j = choose|j: int| 0 <= j < other.len() && other[j] as int == chain[k] as int;
                assert(cat.owner[other[j]] == whose);
                assert(cat.owner[chain[k]] == who);
            }
        }
    }

    /// A chain avoids a single cluster that has another owner.
    pub proof fn lemma_owner_apart(&self, cat: Catalog, chain: Seq<u32>, who: Owner, cluster: u32)
        requires
            self.chain_owned(cat, chain, who),
            cat.owner.dom().contains(cluster),
            cat.owner[cluster] != who,
        ensures
            avoids(chain, set![cluster as int]),
    {
        assert forall|k: int| 0 <= k < chain.len() implies !set![cluster as int].contains(
            #[trigger] chain[k] as int,
        ) by {
            assert(cat.owner[chain[k]] == who);
        }
    }

    /// Every cluster of a chain from the range of the allocator has its FAT
    /// entry in front of the data region.
    pub proof fn lemma_owned_in_table(&self, cat: Catalog, chain: Seq<u32>, who: Owner)
        requires
            self.sound(),
            self.chain_owned(cat, chain, who),
        ensures
            self.all_in_table(chain),
    {
        assert forall|k: int| 0 <= k < chain.len() implies self.in_table(#[trigger] chain[k]) by {
            self.lemma_allocatable_in_table(chain[k]);
        }
    }

    /// What a successful rename does: it rewrites the name of the first
    /// short entry with the old name, which stands in the listing.
    pub proof fn lemma_rename_effect(
        &self,
        image: Seq<u8>,
        current: u32,
        name: Seq<u8>,
        other: Seq<u8>,
        table: &OpenFiles,
    ) -> (t: int)
        requires
            rename_outcome(self, image, current, name, other, table).result is Ok,
        ensures
            !is_special(name),
            !is_special(other),
            self.listing(image, current) is Ok,
            t == scan_from(
                image,
                self.dir_stream(image, current).slots,
                ProbeView::Name(short_name(name)),
                0,
            ),
            0 <= t < scan_from(image, self.dir_stream(image, current).slots, ProbeView::End, 0),
            named_at(image, self.dir_stream(image, current).slots, short_name(name), t),
            rename_outcome(self, image, current, name, other, table).image == patched(
                image,
                self.dir_stream(image, current).slots[t],
                short_name(other),
            ),
    {
        let slots = self.dir_stream(image, current).slots;
        self.lemma_listing_locates(image, current, short_name(name));
        lemma_scan_first(image, slots, ProbeView::Name(short_name(name)), 0);
        scan_from(image, slots, ProbeView::Name(short_name(name)), 0)
    }

    /// A slot whose name has been rewritten holds an entry with the new
    /// name and with the attribute, first cluster and size that it had.
    pub proof fn lemma_renamed_slot(image: Seq<u8>, pos: int, new_name: Seq<u8>)
        requires
            in_bounds(image, pos, SLOT_SIZE as int),
            new_name.len() == 11,
        ensures
            slot_name(slot_at(patched(image, pos, new_name), pos)) == new_name,
            slot_at(patched(image, pos, new_name), pos)[0] == new_name[0],
            slot_at(patched(image, pos, new_name), pos)[11] == slot_at(image, pos)[11],
            slot_first_cluster(slot_at(patched(image, pos, new_name), pos)) == slot_first_cluster(
                slot_at(image, pos),
            ),
            slot_entry(slot_at(patched(image, pos, new_name), pos)).file_size == slot_entry(
                slot_at(image, pos),
            ).file_size,
            slot_entry(slot_at(patched(image, pos, new_name), pos)).attr == slot_entry(
                slot_at(image, pos),
            ).attr,
    {
        let before = slot_at(image, pos);
        let after = slot_at(patched(image, pos, new_name), pos);
        assert(slot_name(after) =~= new_name);
        assert(after[0] == new_name[0]);
        assert(after[11] == before[11]);
        assert(after[20] == before[20]);
        assert(after[21] == before[21]);
        assert(after[26] == before[26]);
        assert(after[27] == before[27]);
        assert(after[28] == before[28]);
        assert(after[29] == before[29]);
        assert(after[30] == before[30]);
        assert(after[31] == before[31]);
    }

    /// A write into slot `t` of a directory leaves its other slots alone
    /// and touches only the cluster in which the slot lies, which belongs
    /// to the directory.
    pub proof fn lemma_slot_write_changes(
        &self,
        a: Seq<u8>,
        cat: Catalog,
        d: u32,
        t: int,
        at: int,
        data: Seq<u8>,
    ) -> (home: u32)
        requires
            self.covers(a),
            self.dir_valid(a, cat, d),
            0 <= t < self.dir_slots(cat, d).len(),
            0 <= at,
            at + data.len() <= SLOT_SIZE,
        ensures
            cat.dirs[d].chain.contains(home),
            2 <= home < self.total_clusters,
            cat.owner.dom().contains(home),
            cat.owner[home] == Owner::Directory(d),
            self.changed_within(
                a,
                patched(a, self.dir_slots(cat, d)[t] + at, data),
                Set::empty(),
                set![home as int],
            ),
            forall|i: int|
                0 <= i < self.dir_slots(cat, d).len() && i != t ==> agree(
                    a,
                    patched(a, self.dir_slots(cat, d)[t] + at, data),
                    #[trigger] self.dir_slots(cat, d)[i],
                    SLOT_SIZE as int,
                ),
            self.same_links(
                a,
                patched(a, self.dir_slots(cat, d)[t] + at, data),
                cat.dirs[d].chain,
            ),
    {
        let chain = cat.dirs[d].chain;
        let slots = self.dir_slots(cat, d);
        let pos = slots[t];
        let b = patched(a, pos + at, data);
        self.lemma_dir_parts(a, cat, d);
        self.lemma_dir_found(a, cat, d);
        let k = self.lemma_slot_home(chain, t);
        let home = chain[k];
        self.lemma_patch_changes(a, pos + at, data, home);
        self.lemma_slots_distinct(chain);
        assert forall|i: int| 0 <= i < slots.len() && i != t implies agree(
            a,
            b,
            #[trigger] slots[i],
            SLOT_SIZE as int,
        ) by {
            lemma_aligned_apart(self, pos, slots[i]);
            lemma_patched_apart(a, pos + at, data, slots[i], SLOT_SIZE as int);
        }
        self.lemma_owned_in_table(cat, chain, Owner::Directory(d));
        lemma_avoids_all(chain);
        self.lemma_changes_keep_links(a, b, Set::empty(), set![home as int], chain);
        home
    }

    /// A change leaves every cluster whose FAT entry it has not touched
    /// free or in use as it was.
    pub proof fn lemma_use_kept(
        &self,
        a: Seq<u8>,
        b: Seq<u8>,
        cat: Catalog,
        next: Catalog,
        entries: Set<int>,
        clusters: Set<int>,
        c: u32,
    )
        requires
            self.valid(a, cat),
            self.changed_within(a, b, entries, clusters),
            2 <= c < self.total_clusters,
            !entries.contains(c as int),
            next.owner.dom().contains(c) == cat.owner.dom().contains(c),
            next.lost.contains(c) == cat.lost.contains(c),
        ensures
            self.use_matches(b, next, c),
    {
        assert(self.use_matches(a, cat, c));
        self.lemma_allocatable_in_table(c);
        self.lemma_changes_keep_use(a, b, entries, clusters, c);
    }

    /// An entry in another slot of a directory in which one slot has
    /// changed stays valid.
    pub proof fn lemma_entry_beside(
        &self,
        a: Seq<u8>,
        b: Seq<u8>,
        cat: Catalog,
        next: Catalog,
        entries: Set<int>,
        clusters: Set<int>,
        current: u32,
        t: int,
        p: int,
    )
        requires
            self.valid(a, cat),
            cat.dirs.dom().contains(current),
            self.changed_within(a, b, entries, clusters),
            0 <= t < self.dir_slots(cat, current).len(),
            forall|i: int|
                0 <= i < self.dir_slots(cat, current).len() && i != t ==> agree(
                    a,
                    b,
                    #[trigger] self.dir_slots(cat, current)[i],
                    SLOT_SIZE as int,
                ),
            cat.entries.dom().contains(p),
            cat.entries[p].dir == current,
            p != self.dir_slots(cat, current)[t],
            self.entry_kept(cat, next, p),
            self.dir_slots(next, current)[cat.entries[p].index] == p,
            self.dir_end(b, next, current) >= self.dir_end(a, cat, current),
            !cat.entries[p].directory ==> avoids(cat.entries[p].chain, entries),
        ensures
            self.entry_valid(b, next, p),
    {
        assert(self.entry_valid(a, cat, p));
        self.lemma_entry_parts(a, cat, p);
        let node = cat.entries[p];
        assert(self.dir_valid(a, cat, current));
        self.lemma_dir_found(a, cat, current);
        assert(agree(a, b, self.dir_slots(cat, current)[node.index], SLOT_SIZE as int));
        self.lemma_entry_kept(a, b, cat, next, entries, clusters, p);
    }

    /// In a valid volume the cluster in which a slot of a directory lies
    /// belongs to no other directory and to no file.
    pub proof fn lemma_home_apart(&self, a: Seq<u8>, cat: Catalog, current: u32, home: u32)
        requires
            self.valid(a, cat),
            cat.owner.dom().contains(home),
            cat.owner[home] == Owner::Directory(current),
        ensures
            forall|d: u32|
                cat.dirs.dom().contains(d) && d != current ==> avoids(
                    (#[trigger] cat.dirs[d]).chain,
                    set![home as int],
                ),
            forall|p: int|
                cat.entries.dom().contains(p) && !cat.entries[p].directory ==> avoids(
                    (#[trigger] cat.entries[p]).chain,
                    set![home as int],
                ),
    {
        assert forall|d: u32| cat.dirs.dom().contains(d) && d != current implies avoids(
            (#[trigger] cat.dirs[d]).chain,
            set![home as int],
        ) by {
            assert(self.dir_valid(a, cat, d));
            self.lemma_dir_parts(a, cat, d);
            self.lemma_owner_apart(cat, cat.dirs[d].chain, Owner::Directory(d), home);
        }
        assert forall|p: int| cat.entries.dom().contains(p) && !cat.entries[p].directory implies avoids(
            (#[trigger] cat.entries[p]).chain,
            set![home as int],
        ) by {
            assert(self.entry_valid(a, cat, p));
            self.lemma_entry_parts(a, cat, p);
            self.lemma_owner_apart(cat, cat.entries[p].chain, Owner::File(p), home);
        }
    }

    /// Renaming an entry keeps a valid volume valid.
    ///
    /// The law leaves out new names whose stored form begins with the byte
    /// `0x00` or `0xE5`: such a name turns the entry into the end of the
    /// directory or into a deleted slot.
    pub proof fn law_rename_keeps_volume(
        &self,
        image: Seq<u8>,
        cat: Catalog,
        current: u32,
        name: Seq<u8>,
        other: Seq<u8>,
        table: &OpenFiles,
    )
        requires
            self.valid(image, cat),
            cat.dirs.dom().contains(current),
            rename_outcome(self, image, current, name, other, table).result is Ok,
            short_name(other)[0] != SLOT_UNUSED,
            short_name(other)[0] != SLOT_DELETED,
        ensures
            self.valid(rename_outcome(self, image, current, name, other, table).image, cat),
    {
        let a = image;
        let new_name = short_name(other);
        let slots = self.dir_slots(cat, current);
        let none = Set::<int>::empty();
        assert(self.dir_valid(a, cat, current));
        self.lemma_dir_found(a, cat, current);
        let t = self.lemma_rename_effect(a, current, name, other, table);
        let pos = slots[t];
        let b = patched(a, pos, new_name);
        lemma_plain_name_is_no_dot_entry(name);
        lemma_plain_name_is_no_dot_entry(other);
        let home = self.lemma_slot_write_changes(a, cat, current, t, 0, new_name);
        let touched = set![home as int];
        self.lemma_home_apart(a, cat, current, home);
        self.lemma_listed(a, cat, current, t);
        Self::lemma_renamed_slot(a, pos, new_name);
        assert(self.dir_valid(b, cat, current) && self.dir_end(b, cat, current) == self.dir_end(
            a,
            cat,
            current,
        )) by {
            self.lemma_dir_parts(a, cat, current);
            self.lemma_dir_slot_changed(a, b, cat, cat, current, t);
        }
        assert forall|d: u32| cat.dirs.dom().contains(d) implies #[trigger] self.dir_valid(
            b,
            cat,
            d,
        ) by {
            if d != current {
                assert(self.dir_valid(a, cat, d));
                self.lemma_dir_kept_same(a, cat, d);
                lemma_avoids_all(cat.dirs[d].chain);
                self.lemma_other_dir_kept(a, b, cat, cat, none, touched, d);
            }
        }
        assert forall|p: int| cat.entries.dom().contains(p) implies #[trigger] self.entry_valid(
            b,
            cat,
            p,
        ) by {
            assert(self.entry_valid(a, cat, p));
            self.lemma_entry_parts(a, cat, p);
            self.lemma_entry_kept_same(a, cat, p);
            let node = cat.entries[p];
            assert(self.dir_valid(a, cat, node.dir));
            lemma_avoids_all(node.chain);
            if p == pos {
                self.lemma_entry_renamed(a, b, cat, none, touched, pos);
            } else if node.dir == current {
                self.lemma_entry_beside(a, b, cat, cat, none, touched, current, t, p);
            } else {
                self.lemma_dir_kept_same(a, cat, node.dir);
                lemma_avoids_all(cat.dirs[node.dir].chain);
                self.lemma_entry_elsewhere(a, b, cat, cat, none, touched, p);
            }
        }
        assert forall|c: u32| 2 <= c < self.total_clusters implies #[trigger] self.use_matches(
            b,
            cat,
            c,
        ) by {
            self.lemma_use_kept(a, b, cat, cat, none, touched, c);
        }
        assert forall|c: u32| cat.owner.dom().contains(c) implies #[trigger] self.owner_valid(
            cat,
            c,
        ) by {
            assert(self.owner_valid(cat, c));
        }
    }

    /// An entry whose slot still holds a short entry with the same
    /// attribute, first cluster and size, under a name other than `.` and
    /// `..`, stays valid under a change that touches no FAT entry of its
    /// chain.
    pub proof fn lemma_entry_renamed(
        &self,
        a: Seq<u8>,
        b: Seq<u8>,
        cat: Catalog,
        entries: Set<int>,
        clusters: Set<int>,
        pos: int,
    )
        requires
            self.valid(a, cat),
            self.changed_within(a, b, entries, clusters),
            cat.entries.dom().contains(pos),
            self.dir_end(b, cat, cat.entries[pos].dir) >= self.dir_end(a, cat, cat.entries[pos].dir),
            is_live(slot_at(b, pos)),
            !is_dot_entry(slot_name(slot_at(b, pos))),
            slot_first_cluster(slot_at(b, pos)) == slot_first_cluster(slot_at(a, pos)),
            slot_entry(slot_at(b, pos)).attr == slot_entry(slot_at(a, pos)).attr,
            slot_entry(slot_at(b, pos)).file_size == slot_entry(slot_at(a, pos)).file_size,
            !cat.entries[pos].directory ==> avoids(cat.entries[pos].chain, entries),
        ensures
            self.entry_valid(b, cat, pos),
    {
        assert(self.entry_valid(a, cat, pos));
        self.lemma_entry_parts(a, cat, pos);
        let node = cat.entries[pos];
        if !node.directory {
            self.lemma_owned_in_table(cat, node.chain, Owner::File(pos));
            self.lemma_changes_keep_links(a, b, entries, clusters, node.chain);
            if node.chain.len() > 0 {
                self.lemma_linked_frame(a, b, node.chain);
            }
        }
        reveal(FAT32::entry_valid);
    }
}

} // verus!
