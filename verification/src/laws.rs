//! What holds of the engine and the commands taken together: how a listing
//! and a search of the same directory agree, and what a pair of operations
//! undoes.

use vstd::prelude::*;
use crate::commands::{
    creat_outcome, first_named, has_name, lemma_first_named, mkdir_outcome, rename_outcome,
    rm_outcome, rmdir_outcome,
};
use crate::directory::{
    entry_bytes, is_live, live_entries, scan_from, slot_at, slot_entry, slot_first_cluster,
    slot_name, EntryView, ProbeView, ScanEnd, SLOT_DELETED, SLOT_SIZE, SLOT_UNUSED,
};
use crate::edit::fresh_entry;
use crate::error::FsError;
use crate::fat32::FAT32;
use crate::frame::{
    agree, aligned, apart, lemma_aligned_apart, lemma_patched_apart, lemma_same_slot,
    lemma_scan_first, lemma_scan_is, stops_at,
};
use crate::image::{in_bounds, patched};
use crate::names::short_name;
use crate::open_files::OpenFiles;
use crate::table::{chain_limit, END_OF_CHAIN, FAT_MASK, FIRST_DATA_CLUSTER};

verus! {

/// Slot `i` holds a short entry with the stored name `name`.
pub open spec fn named_at(image: Seq<u8>, slots: Seq<int>, name: Seq<u8>, i: int) -> bool {
    is_live(slot_at(image, slots[i])) && slot_name(slot_at(image, slots[i])) == name
}

/// How the search for a name goes on when one more entry is listed.
pub proof fn lemma_first_named_push(
    entries: Seq<EntryView>,
    entry: EntryView,
    name: Seq<u8>,
    from: int,
)
    requires
        0 <= from <= entries.len(),
    ensures
        first_named(entries.push(entry), name, from) == if first_named(entries, name, from)
            < entries.len() {
            first_named(entries, name, from)
        } else if entry.name == name {
            entries.len() as int
        } else {
            entries.len() as int + 1
        },
    decreases entries.len() - from,
{
    let longer = entries.push(entry);
    if from < entries.len() {
        assert(longer[from] == entries[from]);
        if entries[from].name != name {
            lemma_first_named_push(entries, entry, name, from + 1);
        }
    } else {
        assert(longer[from] == entry);
        assert(first_named(longer, name, from + 1) == longer.len());
    }
}

/// The first entry of a listing with a given name is the entry of the
/// first slot that holds a short entry with that name.
pub proof fn lemma_entries_named(image: Seq<u8>, slots: Seq<int>, name: Seq<u8>, upto: int)
    requires
        0 <= upto <= slots.len(),
    ensures
        (forall|i: int| 0 <= i < upto ==> !#[trigger] named_at(image, slots, name, i))
            ==> first_named(live_entries(image, slots, upto), name, 0) == live_entries(
            image,
            slots,
            upto,
        ).len(),
        forall|k: int|
            0 <= k < upto && #[trigger] named_at(image, slots, name, k) && (forall|i: int|
                0 <= i < k ==> !#[trigger] named_at(image, slots, name, i)) ==> first_named(
                live_entries(image, slots, upto),
                name,
                0,
            ) < live_entries(image, slots, upto).len() && live_entries(
                image,
                slots,
                upto,
            )[first_named(live_entries(image, slots, upto), name, 0)] == slot_entry(
                slot_at(image, slots[k]),
            ),
    decreases upto,
{
    if upto > 0 {
        lemma_entries_named(image, slots, name, upto - 1);
        let before = live_entries(image, slots, upto - 1);
        let slot = slot_at(image, slots[upto - 1]);
        let all = live_entries(image, slots, upto);
        lemma_first_named(before, name, 0);
        if is_live(slot) {
            lemma_first_named_push(before, slot_entry(slot), name, 0);
            assert(all == before.push(slot_entry(slot)));
        }
        if (forall|i: int| 0 <= i < upto ==> !#[trigger] named_at(image, slots, name, i)) {
            assert(!named_at(image, slots, name, upto - 1));
            assert(first_named(all, name, 0) == all.len());
        }
        assert forall|k: int|
            0 <= k < upto && #[trigger] named_at(image, slots, name, k) && (forall|i: int|
                0 <= i < k ==> !#[trigger] named_at(image, slots, name, i)) implies first_named(
            all,
            name,
            0,
        ) < all.len() && all[first_named(all, name, 0)] == slot_entry(
            slot_at(image, slots[k]),
        ) by {
            if k < upto - 1 {
                assert(first_named(before, name, 0) < before.len());
                if is_live(slot) {
                    assert(all[first_named(before, name, 0)] == before[first_named(
                        before,
                        name,
                        0,
                    )]);
                }
            } else {
                assert(first_named(before, name, 0) == before.len());
            }
        }
    }
}

impl FAT32 {
    /// A listing and a search by name agree. Where the directory can be
    /// listed, a name is listed exactly where the search finds a slot for
    /// it, the first entry with the name is the entry of that slot, and a
    /// name that is not listed is `NotFound`.
    pub proof fn lemma_listing_locates(&self, image: Seq<u8>, dir: u32, name: Seq<u8>)
        requires
            self.listing(image, dir) is Ok,
        ensures
            has_name(self.listing(image, dir).unwrap(), name) <==> self.locate(
                image,
                dir,
                ProbeView::Name(name),
            ) is Ok,
            !has_name(self.listing(image, dir).unwrap(), name) ==> self.locate(
                image,
                dir,
                ProbeView::Name(name),
            ) == Err::<int, FsError>(FsError::NotFound) && scan_from(
                image,
                self.dir_stream(image, dir).slots,
                ProbeView::Name(name),
                0,
            ) == scan_from(image, self.dir_stream(image, dir).slots, ProbeView::End, 0),
            has_name(self.listing(image, dir).unwrap(), name) ==> {
                let entries = self.listing(image, dir).unwrap();
                let slots = self.dir_stream(image, dir).slots;
                let t = scan_from(image, slots, ProbeView::Name(name), 0);
                &&& t < scan_from(image, slots, ProbeView::End, 0)
                &&& self.locate(image, dir, ProbeView::Name(name)) == Ok::<int, FsError>(slots[t])
                &&& named_at(image, slots, name, t)
                &&& in_bounds(image, slots[t], SLOT_SIZE as int)
                &&& entries[first_named(entries, name, 0)] == slot_entry(slot_at(image, slots[t]))
            },
    {
        let slots = self.dir_stream(image, dir).slots;
        let entries = self.listing(image, dir).unwrap();
        let by_name = ProbeView::Name(name);
        let t_end = scan_from(image, slots, ProbeView::End, 0);
        let t = scan_from(image, slots, by_name, 0);
        lemma_scan_first(image, slots, ProbeView::End, 0);
        lemma_scan_first(image, slots, by_name, 0);
        lemma_first_named(entries, name, 0);
        lemma_entries_named(image, slots, name, t_end);
        if t_end < t {
            assert(!stops_at(image, slots, by_name, t_end));
            assert(stops_at(image, slots, ProbeView::End, t_end));
        }
        assert forall|i: int| 0 <= i < t implies !#[trigger] named_at(image, slots, name, i) by {
            assert(!stops_at(image, slots, by_name, i));
        }
        if t < t_end {
            assert(!stops_at(image, slots, ProbeView::End, t));
            assert(stops_at(image, slots, by_name, t));
            assert(named_at(image, slots, name, t));
            assert(slot_at(image, slots[t])[0] == image[slots[t]]);
        } else {
            if t < slots.len() {
                assert(stops_at(image, slots, by_name, t));
                assert(slot_at(image, slots[t])[0] == image[slots[t]]);
            }
        }
    }
}

impl FAT32 {
    /// A write into one slot of a directory leaves the directory's stream
    /// and all its other slots as they were.
    pub proof fn lemma_slot_write(&self, image: Seq<u8>, dir: u32, t: int, data: Seq<u8>)
        requires
            self.sound(),
            self.all_in_table(self.dir_stream(image, dir).clusters),
            0 <= t < self.dir_stream(image, dir).slots.len(),
            data.len() <= SLOT_SIZE,
        ensures
            patched(image, self.dir_stream(image, dir).slots[t], data).len() == image.len(),
            self.dir_stream(patched(image, self.dir_stream(image, dir).slots[t], data), dir)
                == self.dir_stream(image, dir),
            forall|i: int|
                0 <= i < self.dir_stream(image, dir).slots.len() && self.dir_stream(
                    image,
                    dir,
                ).slots[i] != self.dir_stream(image, dir).slots[t] ==> agree(
                    image,
                    patched(image, self.dir_stream(image, dir).slots[t], data),
                    #[trigger] self.dir_stream(image, dir).slots[i],
                    SLOT_SIZE as int,
                ),
            forall|c: u32|
                self.in_table(c) ==> agree(
                    image,
                    patched(image, self.dir_stream(image, dir).slots[t], data),
                    #[trigger] self.fat_pos(c),
                    4,
                ),
    {
        let slots = self.dir_stream(image, dir).slots;
        let pos = slots[t];
        let after = patched(image, pos, data);
        self.lemma_stream_aligned(image, dir);
        assert(aligned(self, slots[t]));
        self.lemma_stream_after_data_write(image, dir, pos, data);
        assert forall|i: int| 0 <= i < slots.len() && slots[i] != pos implies agree(
            image,
            after,
            #[trigger] slots[i],
            SLOT_SIZE as int,
        ) by {
            assert(aligned(self, slots[i]));
            lemma_aligned_apart(self, pos, slots[i]);
        }
    }

    /// Renaming an entry and renaming it back leaves the image as it was,
    /// byte for byte.
    ///
    /// The law speaks of two renames that both succeed, in a directory
    /// whose clusters have their FAT entries in front of the data region.
    pub proof fn law_rename_round_trip(
        &self,
        image: Seq<u8>,
        current: u32,
        name: Seq<u8>,
        other: Seq<u8>,
        table: &OpenFiles,
    )
        requires
            self.sound(),
            self.all_in_table(self.dir_stream(image, current).clusters),
            rename_outcome(self, image, current, name, other, table).result is Ok,
            rename_outcome(
                self,
                rename_outcome(self, image, current, name, other, table).image,
                current,
                other,
                name,
                table,
            ).result is Ok,
        ensures
            rename_outcome(
                self,
                rename_outcome(self, image, current, name, other, table).image,
                current,
                other,
                name,
                table,
            ).image == image,
    {
        let old_name = short_name(name);
        let new_name = short_name(other);
        let slots = self.dir_stream(image, current).slots;
        let renamed = rename_outcome(self, image, current, name, other, table).image;
        self.lemma_listing_locates(image, current, old_name);
        self.lemma_listing_locates(image, current, new_name);
        let t = scan_from(image, slots, ProbeView::Name(old_name), 0);
        let pos = slots[t];
        lemma_scan_first(image, slots, ProbeView::End, 0);
        assert(has_name(self.listing(image, current).unwrap(), old_name));
        assert(renamed == patched(image, pos, new_name));
        lemma_scan_first(image, slots, ProbeView::Name(old_name), 0);
        lemma_scan_first(image, slots, ProbeView::Name(new_name), 0);
        self.lemma_slot_write(image, current, t, new_name);
        // The search for the new name in the renamed image stops at the same slot.
        self.lemma_listing_locates(renamed, current, new_name);
        let back = ProbeView::Name(new_name);
        let t2 = scan_from(renamed, slots, back, 0);
        lemma_scan_first(renamed, slots, back, 0);
        assert forall|i: int| 0 <= i < t implies !#[trigger] stops_at(renamed, slots, back, i) by {
            assert(!stops_at(image, slots, ProbeView::Name(old_name), i));
            assert(!stops_at(image, slots, ProbeView::Name(new_name), i));
            if slots[i] == pos {
                assert(stops_at(image, slots, ProbeView::Name(old_name), t));
            }
            lemma_same_slot(image, renamed, slots[i]);
        }
        let slot = slot_at(renamed, pos);
        let before = slot_at(image, pos);
        assert(slot_name(slot) =~= new_name);
        assert(slot[11] == before[11]);
        assert(slot[0] == new_name[0]);
        if t2 != t {
            // Then the slot at `pos` would not stop the search, so it is
            // no live entry; but the slot that the search does find has
            // the same first byte.
            assert(t < t2);
            assert(!stops_at(renamed, slots, back, t));
            assert(named_at(renamed, slots, new_name, t2));
            assert(slot_name(slot_at(renamed, slots[t2]))[0] == slot_at(renamed, slots[t2])[0]);
            assert(slot_name(slot)[0] == slot[0]);
        }
        assert(slot_name(before) =~= old_name);
        assert(patched(renamed, pos, old_name) =~= image);
    }
}

/// Reading a fresh entry back gives the fields that it was made of.
pub proof fn lemma_entry_round_trip(name: Seq<u8>, attr: u8, first_cluster: u32, file_size: u32)
    requires
        name.len() == 11,
    ensures
        entry_bytes(name, attr, first_cluster, file_size).len() == SLOT_SIZE,
        slot_entry(entry_bytes(name, attr, first_cluster, file_size)) == (EntryView {
            name,
            attr,
            first_cluster,
            file_size,
        }),
{
    let slot = entry_bytes(name, attr, first_cluster, file_size);
    assert(slot_name(slot) =~= name);
    let high = (first_cluster / 0x1_0000) as u16;
    let low = (first_cluster % 0x1_0000) as u16;
    crate::image::lemma_u16_round_trip(high);
    crate::image::lemma_u16_round_trip(low);
    crate::image::lemma_u32_round_trip(file_size);
    assert(crate::image::u16_at(slot, 20) == high);
    assert(crate::image::u16_at(slot, 26) == low);
    assert(crate::image::u32_at(slot, 28) == file_size);
}

impl FAT32 {
    /// The clusters that the allocator may hand out: those among
    /// `2..total_clusters` that the FAT marks free.
    pub open spec fn free_clusters(&self, image: Seq<u8>) -> Set<u32> {
        Set::new(|c: u32| 2 <= c < self.total_clusters && self.is_free(image, c))
    }

    /// The FAT of the second image records for every cluster that the
    /// allocator may hand out the successor that the FAT of the first
    /// records, as far as the entry can be read.
    pub open spec fn same_successors(&self, a: Seq<u8>, b: Seq<u8>) -> bool {
        forall|c: u32|
            2 <= c < self.total_clusters && self.fat_readable(a, c) ==> #[trigger] self.next_of(
                b,
                c,
            ) == self.next_of(a, c)
    }

    /// Two images that agree in front of the data region have the same free
    /// clusters.
    pub proof fn lemma_same_table(&self, a: Seq<u8>, b: Seq<u8>)
        requires
            self.sound(),
            a.len() == b.len(),
            forall|c: u32| self.in_table(c) ==> agree(a, b, #[trigger] self.fat_pos(c), 4),
        ensures
            self.free_clusters(a) == self.free_clusters(b),
            self.same_successors(a, b),
    {
        assert forall|c: u32| 2 <= c < self.total_clusters implies self.is_free(a, c)
            == self.is_free(b, c) && (self.fat_readable(a, c) ==> self.next_of(b, c)
            == self.next_of(a, c)) by {
            self.lemma_allocatable_in_table(c);
            assert(agree(a, b, self.fat_pos(c), 4));
            self.lemma_next_of_agree(a, b, c);
        }
        assert(self.free_clusters(a) =~= self.free_clusters(b));
    }

    /// A write into the data region leaves the FAT entries in front of it
    /// as they were.
    pub proof fn lemma_data_write_keeps_table(&self, image: Seq<u8>, pos: int, data: Seq<u8>)
        requires
            pos >= self.data_region_offset,
        ensures
            patched(image, pos, data).len() == image.len(),
            forall|c: u32|
                self.in_table(c) ==> self.fat_readable(patched(image, pos, data), c)
                    == self.fat_readable(image, c) && (self.fat_readable(image, c)
                    ==> #[trigger] self.next_of(patched(image, pos, data), c) == self.next_of(
                    image,
                    c,
                )),
    {
        assert forall|c: u32| self.in_table(c) implies self.fat_readable(
            patched(image, pos, data),
            c,
        ) == self.fat_readable(image, c) && (self.fat_readable(image, c)
            ==> #[trigger] self.next_of(patched(image, pos, data), c) == self.next_of(
            image,
            c,
        )) by {
            lemma_patched_apart(image, pos, data, self.fat_pos(c), 4);
            self.lemma_next_of_agree(image, patched(image, pos, data), c);
        }
    }

    /// An entry that went into the first vacant slot of a directory which
    /// did not list its name is the entry that a search for the name finds
    /// afterwards, as soon as the name is listed at all.
    pub proof fn lemma_added_is_found(&self, image: Seq<u8>, dir: u32, entry: Seq<u8>, pos: int)
        requires
            self.sound(),
            self.all_in_table(self.dir_stream(image, dir).clusters),
            self.find(image, dir, ProbeView::Vacant) == ScanEnd::At(pos),
            self.listing(image, dir) is Ok,
            !has_name(self.listing(image, dir).unwrap(), slot_name(entry)),
            entry.len() == SLOT_SIZE,
            entry[11] != crate::directory::ATTR_LONG_NAME,
            self.listing(patched(image, pos, entry), dir) is Ok,
            has_name(self.listing(patched(image, pos, entry), dir).unwrap(), slot_name(entry)),
        ensures
            self.added(image, dir, entry).result is Ok,
            self.added(image, dir, entry).image == patched(image, pos, entry),
            patched(image, pos, entry).len() == image.len(),
            self.dir_stream(patched(image, pos, entry), dir) == self.dir_stream(image, dir),
            self.locate(patched(image, pos, entry), dir, ProbeView::Name(slot_name(entry)))
                == Ok::<int, FsError>(pos),
            aligned(self, pos),
            in_bounds(image, pos, SLOT_SIZE as int),
            self.listing(patched(image, pos, entry), dir).unwrap()[first_named(
                self.listing(patched(image, pos, entry), dir).unwrap(),
                slot_name(entry),
                0,
            )] == slot_entry(entry),
    {
        let name = slot_name(entry);
        let slots = self.dir_stream(image, dir).slots;
        let t = scan_from(image, slots, ProbeView::Vacant, 0);
        lemma_scan_first(image, slots, ProbeView::Vacant, 0);
        lemma_scan_first(image, slots, ProbeView::End, 0);
        assert(pos == slots[t]);
        let after = patched(image, pos, entry);
        self.lemma_slot_write(image, dir, t, entry);
        self.lemma_stream_aligned(image, dir);
        assert(aligned(self, slots[t]));
        let by_name = ProbeView::Name(name);
        let t2 = scan_from(after, slots, by_name, 0);
        assert(t2 == t) by {
            self.lemma_vacant_then_named(image, dir, entry, t);
        }
        self.lemma_listing_locates(after, dir, name);
        assert(slot_at(after, pos) =~= entry);
    }

    /// After an entry has gone into the first vacant slot of a directory
    /// which did not list its name, the search for the name stops at that
    /// slot, as soon as the name is listed at all.
    proof fn lemma_vacant_then_named(&self, image: Seq<u8>, dir: u32, entry: Seq<u8>, t: int)
        requires
            self.sound(),
            self.all_in_table(self.dir_stream(image, dir).clusters),
            t == scan_from(image, self.dir_stream(image, dir).slots, ProbeView::Vacant, 0),
            0 <= t < self.dir_stream(image, dir).slots.len(),
            in_bounds(image, self.dir_stream(image, dir).slots[t], SLOT_SIZE as int),
            self.listing(image, dir) is Ok,
            !has_name(self.listing(image, dir).unwrap(), slot_name(entry)),
            entry.len() == SLOT_SIZE,
            entry[11] != crate::directory::ATTR_LONG_NAME,
            self.listing(patched(image, self.dir_stream(image, dir).slots[t], entry), dir) is Ok,
            has_name(
                self.listing(
                    patched(image, self.dir_stream(image, dir).slots[t], entry),
                    dir,
                ).unwrap(),
                slot_name(entry),
            ),
        ensures
            scan_from(
                patched(image, self.dir_stream(image, dir).slots[t], entry),
                self.dir_stream(image, dir).slots,
                ProbeView::Name(slot_name(entry)),
                0,
            ) == t,
    {
        let name = slot_name(entry);
        let slots = self.dir_stream(image, dir).slots;
        let pos = slots[t];
        let after = patched(image, pos, entry);
        let by_name = ProbeView::Name(name);
        lemma_scan_first(image, slots, ProbeView::Vacant, 0);
        lemma_scan_first(image, slots, ProbeView::End, 0);
        lemma_scan_first(image, slots, by_name, 0);
        self.lemma_slot_write(image, dir, t, entry);
        self.lemma_listing_locates(image, dir, name);
        self.lemma_listing_locates(after, dir, name);
        let t2 = scan_from(after, slots, by_name, 0);
        lemma_scan_first(after, slots, by_name, 0);
        let t_end = scan_from(image, slots, ProbeView::End, 0);
        if t_end < t {
            assert(stops_at(image, slots, ProbeView::End, t_end));
            assert(!stops_at(image, slots, ProbeView::Vacant, t_end));
        }
        assert forall|i: int| 0 <= i < t implies !#[trigger] stops_at(after, slots, by_name, i) by {
            assert(!stops_at(image, slots, ProbeView::Vacant, i));
            assert(!stops_at(image, slots, by_name, i));
            if slots[i] == pos {
                assert(stops_at(image, slots, ProbeView::Vacant, t));
            }
            lemma_same_slot(image, after, slots[i]);
        }
        assert(slot_at(after, pos) =~= entry);
        if t2 != t {
            assert(t < t2);
            assert(!stops_at(after, slots, by_name, t));
            assert(named_at(after, slots, name, t2));
            assert(slot_name(slot_at(after, slots[t2]))[0] == slot_at(after, slots[t2])[0]);
            assert(slot_name(entry)[0] == entry[0]);
        }
    }

    /// Creating a file and removing it again leaves the free clusters as
    /// they were, and every FAT entry with the successor that it held. The
    /// slot of the entry stays behind as a deleted slot.
    ///
    /// The law speaks of a directory that has a vacant slot, so that it
    /// need not grow, and whose clusters have their FAT entries in front of
    /// the data region.
    pub proof fn law_creat_rm_restores_free_clusters(
        &self,
        image: Seq<u8>,
        current: u32,
        name: Seq<u8>,
        table: &OpenFiles,
    )
        requires
            self.sound(),
            self.all_in_table(self.dir_stream(image, current).clusters),
            self.find(image, current, ProbeView::Vacant) is At,
            creat_outcome(self, image, current, name).result is Ok,
            rm_outcome(
                self,
                creat_outcome(self, image, current, name).image,
                current,
                name,
                table,
            ).result is Ok,
        ensures
            self.free_clusters(
                rm_outcome(
                    self,
                    creat_outcome(self, image, current, name).image,
                    current,
                    name,
                    table,
                ).image,
            ) == self.free_clusters(image),
            self.same_successors(
                image,
                rm_outcome(
                    self,
                    creat_outcome(self, image, current, name).image,
                    current,
                    name,
                    table,
                ).image,
            ),
    {
        let stored = short_name(name);
        let entry = fresh_entry(name, 0, false);
        lemma_entry_round_trip(stored, crate::directory::ATTR_ARCHIVE, 0, 0);
        assert(slot_name(entry) == stored);
        let created = creat_outcome(self, image, current, name).image;
        assert(created == self.added(image, current, entry).image);
        let pos = self.find(image, current, ProbeView::Vacant)->0;
        assert(created == patched(image, pos, entry));
        self.lemma_added_is_found(image, current, entry, pos);
        let marked = patched(created, pos, seq![SLOT_DELETED]);
        let removed_image = rm_outcome(self, created, current, name, table).image;
        assert(removed_image == marked);
        assert forall|c: u32| self.in_table(c) implies agree(
            image,
            marked,
            #[trigger] self.fat_pos(c),
            4,
        ) by {
            lemma_patched_apart(image, pos, entry, self.fat_pos(c), 4);
            lemma_patched_apart(created, pos, seq![SLOT_DELETED], self.fat_pos(c), 4);
        }
        self.lemma_same_table(image, marked);
    }
}

impl FAT32 {
    /// Creating a directory and removing it again leaves the free clusters
    /// as they were, and every FAT entry with the successor that it held.
    /// The slot of the entry stays behind as a deleted slot.
    ///
    /// The law speaks of a parent directory that has a vacant slot, so that
    /// it need not grow, and whose clusters are in use and have their FAT
    /// entries in front of the data region.
    pub proof fn law_mkdir_rmdir_restores_free_clusters(
        &self,
        image: Seq<u8>,
        current: u32,
        name: Seq<u8>,
    )
        requires
            self.sound(),
            self.settled(image, current),
            self.find(image, current, ProbeView::Vacant) is At,
            mkdir_outcome(self, image, current, name).result is Ok,
            rmdir_outcome(
                self,
                mkdir_outcome(self, image, current, name).image,
                current,
                name,
            ).result is Ok,
        ensures
            self.free_clusters(
                rmdir_outcome(
                    self,
                    mkdir_outcome(self, image, current, name).image,
                    current,
                    name,
                ).image,
            ) == self.free_clusters(image),
            self.same_successors(
                image,
                rmdir_outcome(
                    self,
                    mkdir_outcome(self, image, current, name).image,
                    current,
                    name,
                ).image,
            ),
    {
        let stored = short_name(name);
        let fresh = self.free_scan(image, FIRST_DATA_CLUSTER)->Free_0;
        self.lemma_free_scan(image, FIRST_DATA_CLUSTER);
        self.lemma_bounds();
        self.lemma_allocatable_in_table(fresh);
        let marked = self.with_next(image, fresh, END_OF_CHAIN);
        let block = self.dot_block(fresh, current);
        let set_up = patched(marked, self.cluster_offset(fresh), block);
        assert(block.len() == self.cluster_size());
        let entry = fresh_entry(name, fresh, true);
        lemma_entry_round_trip(stored, crate::directory::ATTR_DIRECTORY, fresh, 0);
        assert(slot_name(entry) == stored);
        // The parent directory is found in the new image as it was.
        self.lemma_with_next(image, fresh, END_OF_CHAIN);
        self.lemma_directory_apart_from_cluster(image, current, fresh, END_OF_CHAIN, block);
        self.lemma_find_frame(image, set_up, current, ProbeView::Vacant);
        self.law_listing_unchanged(image, set_up, current);
        let pos = self.find(image, current, ProbeView::Vacant)->0;
        let made = mkdir_outcome(self, image, current, name).image;
        assert(made == patched(set_up, pos, entry));
        self.lemma_added_is_found(set_up, current, entry, pos);
        // Removing the directory marks the slot and frees the one cluster.
        let deleted = patched(made, pos, seq![SLOT_DELETED]);
        self.lemma_data_write_keeps_table(marked, self.cluster_offset(fresh), block);
        self.lemma_data_write_keeps_table(set_up, pos, entry);
        self.lemma_data_write_keeps_table(made, pos, seq![SLOT_DELETED]);
        assert(self.next_of(deleted, fresh) == END_OF_CHAIN) by {
            assert(END_OF_CHAIN & FAT_MASK == END_OF_CHAIN) by (bit_vector);
        }
        let cleared = self.with_next(deleted, fresh, 0);
        assert(self.freed(deleted, fresh, chain_limit(deleted)) == (cleared, true)) by {
            assert(self.freed(cleared, END_OF_CHAIN, (chain_limit(deleted) - 1) as nat) == (
                cleared,
                true,
            ));
        }
        let gone = rmdir_outcome(self, made, current, name).image;
        assert(gone == cleared);
        self.lemma_with_next(deleted, fresh, 0);
        assert(0u32 & FAT_MASK == 0) by (bit_vector);
        assert forall|c: u32| 2 <= c < self.total_clusters implies self.is_free(cleared, c)
            == self.is_free(image, c) && (self.fat_readable(image, c) ==> self.next_of(cleared, c)
            == self.next_of(image, c)) by {
            self.lemma_allocatable_in_table(c);
            if c != fresh {
                assert(self.next_of(marked, c) == self.next_of(image, c) || !self.fat_readable(
                    image,
                    c,
                ));
                assert(self.next_of(cleared, c) == self.next_of(deleted, c) || !self.fat_readable(
                    deleted,
                    c,
                ));
            }
        }
        assert(self.free_clusters(cleared) =~= self.free_clusters(image));
    }

}

/// `lseek` accepts an offset exactly if the text is a number, the file is
/// open, and the offset is at most the size of the file; an offset equal to
/// the size is accepted.
pub proof fn law_lseek_up_to_the_size(name: Seq<u8>, text: Seq<u8>, table: &OpenFiles)
    ensures
        crate::commands::lseek_target(name, text, table) is Ok <==> crate::names::parse_decimal(
            text,
        ) is Some && table.is_open(crate::commands::key_text(name))
            && crate::names::parse_decimal(text).unwrap() <= table.records()[table.index_of(
            crate::commands::key_text(name),
        )].file_size,
        crate::commands::lseek_target(name, text, table) is Ok ==> crate::commands::lseek_target(
            name,
            text,
            table,
        ).unwrap() == crate::names::parse_decimal(text).unwrap(),
{
}

} // verus!
