//! A file or a directory that has just been made in a valid volume can be
//! removed again, and the directory then lists what it listed before.

use vstd::prelude::*;
use crate::commands::{
    creat_outcome, first_named, has_name, is_dot_entry, key_text, lemma_first_named,
    mkdir_outcome, only_dot_entries, rm_outcome, rmdir_outcome,
};
use crate::directory::{
    is_live, live_entries, scan_from, slot_at, slot_entry, slot_name, ProbeView, ScanEnd,
    SLOT_DELETED, SLOT_SIZE, SLOT_UNUSED,
};
use crate::edit::fresh_entry;
use crate::fat32::FAT32;
use crate::frame::{agree, aligned, lemma_same_slot, lemma_scan_first};
use crate::image::{in_bounds, patched};
use crate::names::short_name;
use crate::open_files::OpenFiles;
use crate::table::{chain_limit, END_OF_CHAIN, FAT_MASK};
use crate::volume::growing::{entry_made, slot_kept};
use crate::volume::Catalog;

verus! {

/// The slot at `pos` holds the same bytes in both images, or a short entry
/// in neither.
pub open spec fn slot_alike(a: Seq<u8>, b: Seq<u8>, pos: int) -> bool {
    slot_at(a, pos) == slot_at(b, pos) || (!is_live(slot_at(a, pos)) && !is_live(slot_at(b, pos)))
}

/// The first `upto` slots list the same entries in two images that differ
/// only in slots without a short entry.
pub proof fn lemma_live_entries_alike(a: Seq<u8>, b: Seq<u8>, slots: Seq<int>, upto: int)
    requires
        0 <= upto <= slots.len(),
        forall|i: int| 0 <= i < upto ==> slot_alike(a, b, #[trigger] slots[i]),
    ensures
        live_entries(b, slots, upto) == live_entries(a, slots, upto),
    decreases upto,
{
    if upto > 0 {
        lemma_live_entries_alike(a, b, slots, upto - 1);
        assert(slot_alike(a, b, slots[upto - 1]));
    }
}

impl FAT32 {
    /// A deleted slot in place of the first vacant slot of a directory of
    /// a valid volume leaves the listing of the directory as it was.
    pub proof fn lemma_deleted_slot_is_passed(
        &self,
        a: Seq<u8>,
        cat: Catalog,
        current: u32,
        data: Seq<u8>,
    ) -> (pos: int)
        requires
            self.valid(a, cat),
            cat.dirs.dom().contains(current),
            self.find(a, current, ProbeView::Vacant) is At,
            data.len() == SLOT_SIZE,
            data[0] == SLOT_DELETED,
        ensures
            self.find(a, current, ProbeView::Vacant) == ScanEnd::At(pos),
            self.listing(a, current) is Ok,
            self.listing(patched(a, pos, data), current) == self.listing(a, current),
            patched(a, pos, data).len() == a.len(),
            self.dir_valid(patched(a, pos, data), cat, current),
    {
        let t = self.lemma_vacant_slot(a, cat, current);
        assert(self.dir_valid(a, cat, current));
        self.lemma_dir_found(a, cat, current);
        self.lemma_dir_parts(a, cat, current);
        let slots = self.dir_slots(cat, current);
        let pos = slots[t];
        let b = patched(a, pos, data);
        let home = self.lemma_slot_write_changes(a, cat, current, t, 0, data);
        assert(slot_at(b, pos) =~= data);
        assert(self.listed_ok(b, cat, current, t));
        assert(self.same_entries_but(cat, cat, current, pos));
        self.lemma_dir_slot_changed(a, b, cat, cat, current, t);
        self.lemma_dir_found(b, cat, current);
        let end = self.dir_end(a, cat, current);
        assert forall|i: int| 0 <= i < slots.len() implies slot_alike(a, b, #[trigger] slots[i]) by {
            if i != t {
                lemma_same_slot(a, b, slots[i]);
            }
        }
        if t < end {
            lemma_live_entries_alike(a, b, slots, end);
        } else {
            lemma_live_entries_alike(a, b, slots, t);
            assert(live_entries(b, slots, t + 1) == live_entries(b, slots, t));
        }
        pos
    }

    /// A short entry in front of the end of a directory of a valid volume
    /// puts its name into the listing of the directory.
    pub proof fn lemma_entry_is_listed(&self, image: Seq<u8>, cat: Catalog, pos: int)
        requires
            self.valid(image, cat),
            cat.entries.dom().contains(pos),
        ensures
            self.listing(image, cat.entries[pos].dir) is Ok,
            has_name(
                self.listing(image, cat.entries[pos].dir).unwrap(),
                slot_name(slot_at(image, pos)),
            ),
    {
        assert(self.entry_valid(image, cat, pos));
        self.lemma_entry_parts(image, cat, pos);
        let node = cat.entries[pos];
        let d = node.dir;
        assert(self.dir_valid(image, cat, d));
        self.lemma_dir_found(image, cat, d);
        let slots = self.dir_slots(cat, d);
        let end = self.dir_end(image, cat, d);
        Self::lemma_live_entry_listed(image, slots, end, node.index);
        let listed = live_entries(image, slots, end);
        let name = slot_name(slot_at(image, pos));
        let j = choose|j: int| 0 <= j < listed.len() && listed[j] == slot_entry(slot_at(image, pos));
        lemma_first_named(listed, name, 0);
        if first_named(listed, name, 0) >= listed.len() {
            assert(listed[j].name != name);
        }
    }

    /// The directory that `mkdir` has made lists nothing but `.` and `..`.
    pub proof fn lemma_made_directory_is_empty(
        &self,
        a: Seq<u8>,
        b: Seq<u8>,
        cat: Catalog,
        next: Catalog,
        current: u32,
        stored: Seq<u8>,
        pos: int,
    )
        requires
            self.valid(a, cat),
            self.valid(b, next),
            cat.dirs.dom().contains(current),
            self.dir_made(a, b, cat, next, current, stored, pos),
            next.dirs.dom().contains(next.entries[pos].first_cluster),
        ensures
            self.listing(b, next.entries[pos].first_cluster) is Ok,
            only_dot_entries(self.listing(b, next.entries[pos].first_cluster).unwrap()),
    {
        let fresh = next.entries[pos].first_cluster;
        assert(self.dir_valid(b, next, fresh));
        self.lemma_dir_found(b, next, fresh);
        let slots = self.dir_slots(next, fresh);
        let end = self.dir_end(b, next, fresh);
        let inside = live_entries(b, slots, end);
        assert forall|j: int| 0 <= j < inside.len() implies is_dot_entry(
            (#[trigger] inside[j]).name,
        ) by {
            let i = Self::lemma_listed_entry(b, slots, end, j);
            self.lemma_listed(b, next, fresh, i);
            if !is_dot_entry(inside[j].name) {
                let q = slots[i];
                assert(next.entries.dom().contains(q) && next.entries[q].dir == fresh);
                if q != pos {
                    assert(cat.entries.dom().contains(q));
                    assert(self.entry_valid(a, cat, q));
                    self.lemma_entry_parts(a, cat, q);
                }
            }
        }
    }

    /// The first entry with its name in the directory that has gained an
    /// entry is the new entry, where no entry had the name before.
    pub proof fn lemma_made_entry_is_found(
        &self,
        a: Seq<u8>,
        b: Seq<u8>,
        cat: Catalog,
        next: Catalog,
        current: u32,
        stored: Seq<u8>,
        pos: int,
    )
        requires
            self.valid(a, cat),
            self.valid(b, next),
            cat.dirs.dom().contains(current),
            entry_made(a, b, cat, next, current, stored, pos),
            !is_dot_entry(stored),
            self.listing(a, current) is Ok ==> !has_name(self.listing(a, current).unwrap(), stored),
        ensures
            self.listing(b, current) is Ok,
            has_name(self.listing(b, current).unwrap(), stored),
            next.entries[pos].directory ==> next.dirs.dom().contains(
                next.entries[pos].first_cluster,
            ),
            ({
                let entries = self.listing(b, current).unwrap();
                let found = entries[first_named(entries, stored, 0)];
                found.is_directory() == next.entries[pos].directory && found.first_cluster
                    == next.entries[pos].first_cluster
            }),
    {
        assert(self.entry_valid(b, next, pos));
        self.lemma_entry_parts(b, next, pos);
        self.lemma_entry_is_listed(b, next, pos);
        assert(self.dir_valid(b, next, current));
        self.lemma_dir_found(b, next, current);
        let slots = self.dir_slots(next, current);
        assert(has_name(self.listing(b, current).unwrap(), stored));
        assert(self.dir_stream(b, current).slots == slots);
        self.lemma_listing_locates(b, current, stored);
        let t = scan_from(b, slots, ProbeView::Name(stored), 0);
        lemma_scan_first(b, slots, ProbeView::Name(stored), 0);
        let p = slots[t];
        self.lemma_listed(b, next, current, t);
        assert(next.entries.dom().contains(p));
        if p != pos {
            assert(cat.entries.dom().contains(p));
            assert(slot_kept(a, b, p));
            assert(in_bounds(b, p, SLOT_SIZE as int));
            assert(slot_at(a, p) =~= slot_at(b, p));
            self.lemma_entry_is_listed(a, cat, p);
            assert(false);
        }
    }

    /// `rmdir` removes a directory that has just been made and that no
    /// entry named before.
    pub proof fn lemma_made_directory_goes(
        &self,
        a: Seq<u8>,
        b: Seq<u8>,
        cat: Catalog,
        next: Catalog,
        current: u32,
        name: Seq<u8>,
        pos: int,
    )
        requires
            self.valid(a, cat),
            self.valid(b, next),
            cat.dirs.dom().contains(current),
            self.dir_made(a, b, cat, next, current, short_name(name), pos),
            !crate::commands::is_special(name),
            self.listing(a, current) is Ok ==> !has_name(
                self.listing(a, current).unwrap(),
                short_name(name),
            ),
        ensures
            rmdir_outcome(self, b, current, name).result is Ok,
    {
        let stored = short_name(name);
        crate::volume::keeping::lemma_plain_name_is_no_dot_entry(name);
        self.lemma_made_entry_is_found(a, b, cat, next, current, stored, pos);
        self.lemma_made_directory_is_empty(a, b, cat, next, current, stored, pos);
        assert(next.dirs.dom().contains(current)) by {
            assert(self.entry_valid(b, next, pos));
            self.lemma_entry_parts(b, next, pos);
        }
        self.lemma_removal_succeeds(b, next, current, stored);
    }

    /// A directory that `mkdir` made in a valid volume, and in which
    /// nothing has been created, is removed by `rmdir` under the same
    /// name: the removal does not fail.
    ///
    /// The law leaves out the names `.` and `..`, which `rmdir` refuses,
    /// and names whose stored form begins with the byte `0x00` or `0xE5`:
    /// the entry of such a name is taken for the end of the directory or
    /// for a deleted slot.
    pub proof fn law_rmdir_undoes_mkdir(&self, image: Seq<u8>, cat: Catalog, current: u32, name: Seq<u8>)
        requires
            self.valid(image, cat),
            cat.dirs.dom().contains(current),
            mkdir_outcome(self, image, current, name).result is Ok,
            !crate::commands::is_special(name),
            short_name(name)[0] != SLOT_UNUSED,
            short_name(name)[0] != SLOT_DELETED,
        ensures
            rmdir_outcome(
                self,
                mkdir_outcome(self, image, current, name).image,
                current,
                name,
            ).result is Ok,
    {
        let stored = short_name(name);
        let b = mkdir_outcome(self, image, current, name).image;
        let next = self.law_mkdir_keeps_volume(image, cat, current, name);
        let pos = choose|pos: int| self.dir_made(image, b, cat, next, current, stored, pos);
        self.lemma_made_directory_goes(image, b, cat, next, current, name, pos);
    }

    /// `rm` removes a file that has just been created, that no entry named
    /// before and that is not open.
    pub proof fn lemma_made_file_goes(
        &self,
        a: Seq<u8>,
        b: Seq<u8>,
        cat: Catalog,
        next: Catalog,
        current: u32,
        name: Seq<u8>,
        pos: int,
        table: &OpenFiles,
    )
        requires
            self.valid(a, cat),
            self.valid(b, next),
            cat.dirs.dom().contains(current),
            Self::file_made(a, b, cat, next, current, short_name(name), pos),
            !table.is_open(key_text(name)),
            self.listing(a, current) is Ok ==> !has_name(
                self.listing(a, current).unwrap(),
                short_name(name),
            ),
        ensures
            rm_outcome(self, b, current, name, table).result is Ok,
    {
        let stored = short_name(name);
        crate::volume::keeping::lemma_plain_name_is_no_dot_entry(name);
        self.lemma_made_entry_is_found(a, b, cat, next, current, stored, pos);
        assert(next.dirs.dom().contains(current)) by {
            assert(self.entry_valid(b, next, pos));
            self.lemma_entry_parts(b, next, pos);
        }
        self.lemma_removal_succeeds(b, next, current, stored);
    }

    /// A file that `creat` made in a valid volume, and that is not open, is
    /// removed by `rm` under the same name: the removal does not fail.
    ///
    /// The law leaves out names whose stored form begins with the byte
    /// `0x00` or `0xE5`: the entry of such a name is taken for the end of
    /// the directory or for a deleted slot.
    pub proof fn law_rm_undoes_creat(
        &self,
        image: Seq<u8>,
        cat: Catalog,
        current: u32,
        name: Seq<u8>,
        table: &OpenFiles,
    )
        requires
            self.valid(image, cat),
            cat.dirs.dom().contains(current),
            creat_outcome(self, image, current, name).result is Ok,
            !table.is_open(key_text(name)),
            short_name(name)[0] != SLOT_UNUSED,
            short_name(name)[0] != SLOT_DELETED,
        ensures
            rm_outcome(
                self,
                creat_outcome(self, image, current, name).image,
                current,
                name,
                table,
            ).result is Ok,
    {
        let stored = short_name(name);
        let b = creat_outcome(self, image, current, name).image;
        let next = self.law_creat_keeps_volume(image, cat, current, name);
        let pos = choose|pos: int| Self::file_made(image, b, cat, next, current, stored, pos);
        self.lemma_made_file_goes(image, b, cat, next, current, name, pos, table);
    }

    /// Creating a file and removing it again leaves the listing of the
    /// directory as it was: the slot of the entry stays behind as a deleted
    /// slot, which no listing shows.
    ///
    /// The law speaks of a directory of a valid volume that has a vacant
    /// slot, and of a file that is not open. It leaves out names whose
    /// stored form begins with the byte `0x00` or `0xE5`.
    pub proof fn law_creat_rm_restores_listing(
        &self,
        image: Seq<u8>,
        cat: Catalog,
        current: u32,
        name: Seq<u8>,
        table: &OpenFiles,
    )
        requires
            self.valid(image, cat),
            cat.dirs.dom().contains(current),
            self.find(image, current, ProbeView::Vacant) is At,
            creat_outcome(self, image, current, name).result is Ok,
            !table.is_open(key_text(name)),
            short_name(name)[0] != SLOT_UNUSED,
            short_name(name)[0] != SLOT_DELETED,
        ensures
            self.listing(image, current) is Ok,
            self.listing(
                rm_outcome(
                    self,
                    creat_outcome(self, image, current, name).image,
                    current,
                    name,
                    table,
                ).image,
                current,
            ) == self.listing(image, current),
    {
        let stored = short_name(name);
        let entry = fresh_entry(name, 0, false);
        crate::laws::lemma_entry_round_trip(stored, crate::directory::ATTR_ARCHIVE, 0, 0);
        let made = creat_outcome(self, image, current, name).image;
        let pos = self.find(image, current, ProbeView::Vacant)->0;
        assert(made == patched(image, pos, entry));
        self.law_rm_undoes_creat(image, cat, current, name, table);
        assert(self.dir_valid(image, cat, current));
        self.lemma_dir_found(image, cat, current);
        self.lemma_added_is_found(image, current, entry, pos);
        let marked = patched(made, pos, seq![SLOT_DELETED]);
        assert(self.freed(marked, 0, chain_limit(marked)) == (marked, true));
        assert(rm_outcome(self, made, current, name, table).image == marked);
        let deleted = entry.update(0, SLOT_DELETED);
        assert(marked =~= patched(image, pos, deleted));
        let at = self.lemma_deleted_slot_is_passed(image, cat, current, deleted);
    }

    /// A new value in the FAT entry of a cluster that has no owner leaves
    /// a directory of the catalogue as it was.
    pub proof fn lemma_freed_elsewhere(
        &self,
        x: Seq<u8>,
        cat: Catalog,
        d: u32,
        cluster: u32,
        value: u32,
    )
        requires
            self.covers(x),
            self.dir_valid(x, cat, d),
            2 <= cluster < self.total_clusters,
            !cat.owner.dom().contains(cluster),
        ensures
            self.same_directory(x, self.with_next(x, cluster, value), d),
    {
        let y = self.with_next(x, cluster, value);
        let chain = cat.dirs[d].chain;
        let slots = self.dir_slots(cat, d);
        self.lemma_dir_found(x, cat, d);
        self.lemma_dir_parts(x, cat, d);
        self.lemma_allocatable_in_table(cluster);
        self.lemma_with_next(x, cluster, value);
        assert forall|k: int| 0 <= k < chain.len() implies agree(
            x,
            y,
            self.fat_pos(#[trigger] chain[k]),
            4,
        ) by {
            assert(cat.owner.dom().contains(chain[k]));
            self.lemma_entries_apart(cluster, chain[k]);
        }
        assert forall|i: int| 0 <= i < slots.len() implies agree(
            x,
            y,
            #[trigger] slots[i],
            SLOT_SIZE as int,
        ) by {
            assert(aligned(self, slots[i]));
        }
    }

    /// Creating a directory and removing it again leaves the listing of
    /// the parent directory as it was: the slot of the entry stays behind
    /// as a deleted slot, which no listing shows.
    ///
    /// The law speaks of a parent directory of a valid volume that has a
    /// vacant slot. It leaves out the names `.` and `..`, which `rmdir`
    /// refuses, and names whose stored form begins with the byte `0x00` or
    /// `0xE5`.
    pub proof fn law_mkdir_rmdir_restores_listing(
        &self,
        image: Seq<u8>,
        cat: Catalog,
        current: u32,
        name: Seq<u8>,
    )
        requires
            self.valid(image, cat),
            cat.dirs.dom().contains(current),
            self.find(image, current, ProbeView::Vacant) is At,
            mkdir_outcome(self, image, current, name).result is Ok,
            !crate::commands::is_special(name),
            short_name(name)[0] != SLOT_UNUSED,
            short_name(name)[0] != SLOT_DELETED,
        ensures
            self.listing(image, current) is Ok,
            self.listing(
                rmdir_outcome(
                    self,
                    mkdir_outcome(self, image, current, name).image,
                    current,
                    name,
                ).image,
                current,
            ) == self.listing(image, current),
    {
        let stored = short_name(name);
        let fresh = self.lemma_mkdir_effect(image, current, name);
        let base = self.set_up(image, fresh, current);
        let lost = Self::with_lost(cat, fresh);
        self.lemma_set_up_apart(image, cat, current, fresh, ProbeView::Vacant);
        self.lemma_set_up_lost(image, cat, current, fresh);
        self.lemma_fresh_unowned(image, cat, fresh);
        let entry = fresh_entry(name, fresh, true);
        crate::laws::lemma_entry_round_trip(stored, crate::directory::ATTR_DIRECTORY, fresh, 0);
        let made = mkdir_outcome(self, image, current, name).image;
        let pos = self.find(image, current, ProbeView::Vacant)->0;
        assert(made == patched(base, pos, entry));
        self.law_rmdir_undoes_mkdir(image, cat, current, name);
        assert(self.dir_valid(base, lost, current));
        self.lemma_dir_found(base, lost, current);
        self.lemma_added_is_found(base, current, entry, pos);
        let marked = patched(made, pos, seq![SLOT_DELETED]);
        let deleted = entry.update(0, SLOT_DELETED);
        assert(marked =~= patched(base, pos, deleted));
        let at = self.lemma_deleted_slot_is_passed(base, lost, current, deleted);
        // Only the FAT entry of the new directory changes after that.
        self.lemma_allocatable_in_table(fresh);
        self.lemma_with_next(image, fresh, END_OF_CHAIN);
        assert(self.next_of(marked, fresh) == END_OF_CHAIN) by {
            assert(END_OF_CHAIN & FAT_MASK == END_OF_CHAIN) by (bit_vector);
            self.lemma_data_write_keeps_table(
                self.with_next(image, fresh, END_OF_CHAIN),
                self.cluster_offset(fresh),
                self.dot_block(fresh, current),
            );
            self.lemma_data_write_keeps_table(base, pos, deleted);
        }
        let cleared = self.with_next(marked, fresh, 0);
        assert(self.freed(marked, fresh, chain_limit(marked)) == (cleared, true)) by {
            assert(self.freed(cleared, END_OF_CHAIN, (chain_limit(marked) - 1) as nat) == (
                cleared,
                true,
            ));
        }
        assert(rmdir_outcome(self, made, current, name).image == cleared);
        self.lemma_freed_elsewhere(marked, lost, current, fresh, 0);
        self.law_listing_unchanged(marked, cleared, current);
    }
}

} // verus!
