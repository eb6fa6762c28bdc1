//! How the validity of a volume carries over a change: a directory or an
//! entry that the change has not touched stays valid, and so does a
//! directory in which one slot has changed.

use vstd::prelude::*;
use crate::commands::is_dot_entry;
use crate::directory::{
    is_live, scan_from, slot_at, slot_entry, slot_first_cluster, slot_name, ProbeView, SLOT_SIZE,
    SLOT_UNUSED,
};
use crate::fat32::FAT32;
use crate::frame::{
    agree, aligned, lemma_aligned_apart, lemma_same_slot, lemma_scan_first, lemma_scan_frame,
    lemma_scan_is, same_slots, stops_at,
};
use crate::image::in_bounds;
use crate::volume::{Catalog, Owner};

verus! {

impl FAT32 {
    /// The second catalogue records the entries of directory `d` as the
    /// first does.
    pub open spec fn same_entries(&self, cat: Catalog, next: Catalog, d: u32) -> bool {
        forall|pos: int|
            cat.entries.dom().contains(pos) && (#[trigger] cat.entries[pos]).dir == d
                ==> next.entries.dom().contains(pos) && next.entries[pos] == cat.entries[pos]
    }

    /// A directory whose FAT entries and slots a change has left alone, and
    /// which the catalogue records as before, stays valid.
    pub proof fn lemma_dir_frame(&self, a: Seq<u8>, b: Seq<u8>, cat: Catalog, next: Catalog, d: u32)
        requires
            self.covers(a),
            a.len() == b.len(),
            self.dir_valid(a, cat, d),
            self.same_links(a, b, cat.dirs[d].chain),
            same_slots(a, b, self.dir_slots(cat, d), self.dir_slots(cat, d).len() as int),
            next.dirs.dom().contains(d),
            next.dirs[d] == cat.dirs[d],
            self.chain_owned(next, cat.dirs[d].chain, Owner::Directory(d)),
            self.parent_ok(next, d),
            self.same_entries(cat, next, d),
        ensures
            self.dir_valid(b, next, d),
            self.dir_end(b, next, d) == self.dir_end(a, cat, d),
    {
        reveal(FAT32::dir_valid);
        let chain = cat.dirs[d].chain;
        let slots = self.dir_slots(cat, d);
        self.lemma_dir_found(a, cat, d);
        self.lemma_linked_frame(a, b, chain);
        lemma_scan_frame(a, b, slots, ProbeView::End);
        let end = self.dir_end(a, cat, d);
        assert forall|i: int| 0 <= i < end implies #[trigger] self.listed_ok(b, next, d, i) by {
            assert(self.listed_ok(a, cat, d, i));
            lemma_same_slot(a, b, slots[i]);
            if is_live(slot_at(a, slots[i])) {
                assert(self.slot_valid(a, cat, d, i));
            }
        }
        assert forall|i: int| end <= i < slots.len() implies #[trigger] self.tail_ok(
            b,
            next,
            d,
            i,
        ) by {
            assert(self.tail_ok(a, cat, d, i));
            lemma_same_slot(a, b, slots[i]);
        }
    }

    /// An entry whose slot and chain a change has left alone, and which the
    /// catalogue records as before, stays valid.
    pub proof fn lemma_entry_frame(&self, a: Seq<u8>, b: Seq<u8>, cat: Catalog, next: Catalog, pos: int)
        requires
            self.covers(a),
            a.len() == b.len(),
            self.entry_valid(a, cat, pos),
            in_bounds(a, pos, SLOT_SIZE as int),
            agree(a, b, pos, SLOT_SIZE as int),
            next.entries.dom().contains(pos),
            next.entries[pos] == cat.entries[pos],
            next.dirs.dom().contains(cat.entries[pos].dir),
            self.dir_slots(next, cat.entries[pos].dir)[cat.entries[pos].index] == pos,
            cat.entries[pos].index < self.dir_end(b, next, cat.entries[pos].dir),
            cat.entries[pos].directory ==> next.dirs.dom().contains(cat.entries[pos].first_cluster)
                && next.dirs[cat.entries[pos].first_cluster].entry == pos
                && next.dirs[cat.entries[pos].first_cluster].parent == cat.entries[pos].dir,
            !cat.entries[pos].directory ==> self.same_links(a, b, cat.entries[pos].chain)
                && self.chain_owned(next, cat.entries[pos].chain, Owner::File(pos)),
        ensures
            self.entry_valid(b, next, pos),
    {
        reveal(FAT32::entry_valid);
        let node = cat.entries[pos];
        lemma_same_slot(a, b, pos);
        if !node.directory && node.chain.len() > 0 {
            self.lemma_linked_frame(a, b, node.chain);
        }
    }
}

impl FAT32 {
    /// The slots of a chain without repeated clusters lie at different
    /// offsets.
    pub proof fn lemma_slots_distinct(&self, chain: Seq<u32>)
        requires
            self.sound(),
            chain.no_duplicates(),
            forall|k: int| 0 <= k < chain.len() ==> (#[trigger] chain[k]) >= 2,
        ensures
            forall|i: int, j: int|
                0 <= i < self.chain_slots(chain).len() && 0 <= j < self.chain_slots(chain).len()
                    && i != j ==> self.chain_slots(chain)[i] != self.chain_slots(chain)[j],
        decreases chain.len(),
    {
        if chain.len() > 0 {
            let front = chain.drop_last();
            let last = chain.last();
            assert(chain[chain.len() - 1] >= 2);
            assert forall|k: int| 0 <= k < front.len() implies (#[trigger] front[k]) >= 2
                && front[k] != last by {
                assert(front[k] == chain[k]);
            }
            assert(front.no_duplicates()) by {
                assert forall|i: int, j: int|
                    0 <= i < front.len() && 0 <= j < front.len() && i != j implies front[i]
                    != front[j] by {
                    assert(front[i] == chain[i]);
                    assert(front[j] == chain[j]);
                }
            }
            self.lemma_slots_distinct(front);
            self.lemma_chain_slots_apart(front, last);
            let head = self.chain_slots(front);
            let slots = self.chain_slots(chain);
            assert forall|i: int, j: int|
                0 <= i < slots.len() && 0 <= j < slots.len() && i != j implies slots[i]
                != slots[j] by {
                if i < head.len() {
                    assert(slots[i] == head[i]);
                } else {
                    self.lemma_cluster_slots_aligned(last, i - head.len());
                    assert(slots[i] == self.cluster_slots(last)[i - head.len()]);
                }
                if j < head.len() {
                    assert(slots[j] == head[j]);
                } else {
                    self.lemma_cluster_slots_aligned(last, j - head.len());
                    assert(slots[j] == self.cluster_slots(last)[j - head.len()]);
                }
            }
        }
    }

    /// The second catalogue records the entries of directory `d` as the
    /// first does, but for the entry in the slot at `pos`.
    pub open spec fn same_entries_but(&self, cat: Catalog, next: Catalog, d: u32, pos: int) -> bool {
        forall|p: int|
            p != pos && cat.entries.dom().contains(p) && (#[trigger] cat.entries[p]).dir == d
                ==> next.entries.dom().contains(p) && next.entries[p] == cat.entries[p]
    }

    /// A directory in which one slot has changed stays valid, where the
    /// slot lies in the listing or ends it, holds no terminator afterwards,
    /// and is recorded by the catalogue as it now stands.
    pub proof fn lemma_dir_slot_changed(
        &self,
        a: Seq<u8>,
        b: Seq<u8>,
        cat: Catalog,
        next: Catalog,
        d: u32,
        t: int,
    )
        requires
            self.covers(a),
            a.len() == b.len(),
            self.dir_valid(a, cat, d),
            0 <= t <= self.dir_end(a, cat, d),
            t < self.dir_slots(cat, d).len(),
            self.same_links(a, b, cat.dirs[d].chain),
            forall|i: int|
                0 <= i < self.dir_slots(cat, d).len() && i != t ==> agree(
                    a,
                    b,
                    #[trigger] self.dir_slots(cat, d)[i],
                    SLOT_SIZE as int,
                ),
            next.dirs.dom().contains(d),
            next.dirs[d] == cat.dirs[d],
            self.chain_owned(next, cat.dirs[d].chain, Owner::Directory(d)),
            self.parent_ok(next, d),
            self.same_entries_but(cat, next, d, self.dir_slots(cat, d)[t]),
            slot_at(b, self.dir_slots(cat, d)[t])[0] != SLOT_UNUSED,
            self.listed_ok(b, next, d, t),
        ensures
            self.dir_valid(b, next, d),
            self.dir_end(b, next, d) == if t < self.dir_end(a, cat, d) {
                self.dir_end(a, cat, d)
            } else {
                t + 1
            },
    {
        reveal(FAT32::dir_valid);
        let chain = cat.dirs[d].chain;
        let slots = self.dir_slots(cat, d);
        let end = self.dir_end(a, cat, d);
        self.lemma_dir_found(a, cat, d);
        self.lemma_linked_frame(a, b, chain);
        self.lemma_slots_distinct(chain);
        lemma_scan_first(a, slots, ProbeView::End, 0);
        let new_end = if t < end {
            end
        } else {
            t + 1
        };
        assert forall|i: int| 0 <= i < new_end implies !#[trigger] stops_at(
            b,
            slots,
            ProbeView::End,
            i,
        ) by {
            if i != t {
                assert(!stops_at(a, slots, ProbeView::End, i));
                lemma_same_slot(a, b, slots[i]);
            }
        }
        if new_end < slots.len() {
            assert(self.tail_ok(a, cat, d, new_end));
            lemma_same_slot(a, b, slots[new_end]);
        }
        lemma_scan_is(b, slots, ProbeView::End, 0, new_end);
        assert forall|i: int| 0 <= i < new_end implies #[trigger] self.listed_ok(b, next, d, i) by {
            if i != t {
                assert(self.listed_ok(a, cat, d, i));
                lemma_same_slot(a, b, slots[i]);
                if is_live(slot_at(a, slots[i])) {
                    assert(self.slot_valid(a, cat, d, i));
                }
            }
        }
        assert forall|i: int| new_end <= i < slots.len() implies #[trigger] self.tail_ok(
            b,
            next,
            d,
            i,
        ) by {
            assert(self.tail_ok(a, cat, d, i));
            lemma_same_slot(a, b, slots[i]);
        }
    }
}

} // verus!
