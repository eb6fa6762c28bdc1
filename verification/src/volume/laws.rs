//! What holds of a valid volume and the commands that only read it: an
//! empty volume is valid, `cd` stays inside the catalogue, and what a
//! write command stored is what a read brings back.

use vstd::prelude::*;
use crate::changes::{avoids, cluster_set};
use crate::commands::{
    cd_target, first_named, first_of_kind, is_dot_entry, lemma_first_named, lookup, open_record,
};
use crate::open_files::OpenFiles;
use crate::directory::{
    is_live, live_entries, scan_from, slot_at, slot_entry, slot_first_cluster, slot_name,
    EntryView, ProbeView, SLOT_SIZE, SLOT_UNUSED,
};
use crate::error::FsError;
use crate::fat32::FAT32;
use crate::frame::{lemma_scan_first, lemma_scan_is, stops_at};
use crate::image::in_bounds;
use crate::names::{dot_name, short_name, DOT};
use crate::open_files::OpenFileView;
use crate::table::END_OF_CHAIN;
use crate::volume::{Catalog, DirInfo, Node, Owner};

verus! {

impl FAT32 {
    /// The catalogue of a volume that holds an empty root directory and
    /// nothing else.
    pub open spec fn empty_catalog(&self) -> Catalog {
        let root = self.boot_sector.root_cluster;
        Catalog {
            dirs: Map::empty().insert(
                root,
                DirInfo { chain: seq![root], parent: root, entry: 0, depth: 0 },
            ),
            entries: Map::empty(),
            owner: Map::empty().insert(root, Owner::Directory(root)),
            lost: Set::empty(),
        }
    }

    /// An image is an empty volume: the root directory is one cluster that
    /// ends its chain, none of its slots is in use, and every other
    /// cluster is free.
    pub open spec fn is_empty_volume(&self, image: Seq<u8>) -> bool {
        let root = self.boot_sector.root_cluster;
        &&& self.covers(image)
        &&& 2 <= root < self.total_clusters
        &&& self.fat_readable(image, root)
        &&& self.next_of(image, root) >= END_OF_CHAIN
        &&& forall|j: int|
            0 <= j < self.slots_per_cluster() ==> slot_at(
                image,
                #[trigger] self.cluster_slots(root)[j],
            )[0] == SLOT_UNUSED
        &&& forall|c: u32|
            2 <= c < self.total_clusters && c != root ==> #[trigger] self.is_free(image, c)
    }

    /// An empty volume is valid, with the catalogue that holds the root
    /// directory alone.
    pub proof fn law_empty_volume_is_valid(&self, image: Seq<u8>)
        requires
            self.is_empty_volume(image),
        ensures
            self.valid(image, self.empty_catalog()),
    {
        let root = self.boot_sector.root_cluster;
        let cat = self.empty_catalog();
        let chain = seq![root];
        self.lemma_bounds();
        self.lemma_chain_slots_one(root);
        assert(self.total_clusters <= crate::fat32::MAX_CLUSTERS);
        assert(chain.last() == root);
        assert(self.linked(image, chain));
        assert(self.dir_valid(image, cat, root)) by {
            reveal(FAT32::dir_valid);
            let slots = self.dir_slots(cat, root);
            assert(slots == self.cluster_slots(root));
            assert((root - 2) * self.cluster_size() + self.cluster_size() <= (self.total_clusters
                - 2) * self.cluster_size()) by (nonlinear_arith)
                requires
                    root + 1 <= self.total_clusters,
                    self.cluster_size() > 0,
            ;
            self.lemma_cluster_slots_aligned(root, 0);
            assert(slot_at(image, self.cluster_slots(root)[0])[0] == SLOT_UNUSED);
            assert(stops_at(image, slots, ProbeView::End, 0));
            lemma_scan_is(image, slots, ProbeView::End, 0, 0);
            assert forall|i: int| 0 <= i < slots.len() implies #[trigger] self.tail_ok(
                image,
                cat,
                root,
                i,
            ) by {
                assert(slot_at(image, self.cluster_slots(root)[i])[0] == SLOT_UNUSED);
            }
        }
        assert forall|c: u32| cat.owner.dom().contains(c) implies #[trigger] self.owner_valid(
            cat,
            c,
        ) by {
            assert(chain[0] == root);
        }
        assert forall|c: u32| 2 <= c < self.total_clusters implies #[trigger] self.use_matches(
            image,
            cat,
            c,
        ) by {
            if c != root {
                assert(self.is_free(image, c));
            }
        }
    }

    /// Every entry of a listing is the entry of a short slot in front of
    /// the end of the listing.
    pub proof fn lemma_listed_entry(image: Seq<u8>, slots: Seq<int>, upto: int, j: int) -> (i: int)
        requires
            0 <= j < live_entries(image, slots, upto).len(),
        ensures
            0 <= i < upto,
            is_live(slot_at(image, slots[i])),
            live_entries(image, slots, upto)[j] == slot_entry(slot_at(image, slots[i])),
        decreases upto,
    {
        let before = live_entries(image, slots, upto - 1);
        let last = slot_at(image, slots[upto - 1]);
        if is_live(last) && j == before.len() {
            upto - 1
        } else {
            Self::lemma_listed_entry(image, slots, upto - 1, j)
        }
    }

    /// `cd` leads from a directory of a valid volume to a directory of the
    /// volume.
    pub proof fn law_cd_stays_in_volume(
        &self,
        image: Seq<u8>,
        cat: Catalog,
        current: u32,
        name: Seq<u8>,
    )
        requires
            self.valid(image, cat),
            cat.dirs.dom().contains(current),
            cd_target(self, image, current, name) is Ok,
        ensures
            cat.dirs.dom().contains(cd_target(self, image, current, name).unwrap()),
    {
        if !(name =~= seq![DOT]) {
            assert(self.dir_valid(image, cat, current));
            self.lemma_dir_found(image, cat, current);
            self.lemma_dir_parts(image, cat, current);
            let slots = self.dir_slots(cat, current);
            let end = self.dir_end(image, cat, current);
            let entries = live_entries(image, slots, end);
            let wanted = if name =~= seq![DOT, DOT] {
                dot_name(2)
            } else {
                short_name(name)
            };
            let j = first_of_kind(entries, wanted, true, 0);
            crate::volume::laws::lemma_first_of_kind(entries, wanted, true, 0);
            let i = Self::lemma_listed_entry(image, slots, end, j);
            self.lemma_listed(image, cat, current, i);
            let slot = slot_at(image, slots[i]);
            if !is_dot_entry(slot_name(slot)) {
                assert(self.entry_valid(image, cat, slots[i]));
                self.lemma_entry_parts(image, cat, slots[i]);
            }
        }
    }

    /// The record that `open` enters belongs to an entry of the catalogue:
    /// where the first entry with the name is a file, the name stands for
    /// that entry in the current directory, and the record holds its first
    /// cluster and its size. A write through the record right afterwards
    /// is a write of the kind that keeps the volume valid.
    pub proof fn law_open_record_fits_entry(
        &self,
        image: Seq<u8>,
        cat: Catalog,
        current: u32,
        name: Seq<u8>,
        flag: Seq<char>,
        table: &OpenFiles,
    ) -> (pos: int)
        requires
            self.valid(image, cat),
            cat.dirs.dom().contains(current),
            open_record(self, image, current, name, flag, table) is Ok,
            first_named(self.listing(image, current).unwrap(), short_name(name), 0)
                == first_of_kind(
                self.listing(image, current).unwrap(),
                short_name(name),
                false,
                0,
            ),
        ensures
            cat.entries.dom().contains(pos),
            cat.entries[pos].dir == current,
            !cat.entries[pos].directory,
            self.locate(image, current, ProbeView::Name(short_name(name))) == Ok::<int, FsError>(
                pos,
            ),
            open_record(self, image, current, name, flag, table).unwrap().first_cluster
                == cat.entries[pos].first_cluster,
            open_record(self, image, current, name, flag, table).unwrap().file_size
                == cat.entries[pos].size,
            open_record(self, image, current, name, flag, table).unwrap().offset == 0,
    {
        let stored = short_name(name);
        assert(self.dir_valid(image, cat, current));
        self.lemma_dir_found(image, cat, current);
        let slots = self.dir_slots(cat, current);
        let entries = self.listing(image, current).unwrap();
        lemma_first_of_kind(entries, stored, false, 0);
        lemma_first_named(entries, stored, 0);
        self.lemma_listing_locates(image, current, stored);
        let t = scan_from(image, slots, ProbeView::Name(stored), 0);
        lemma_scan_first(image, slots, ProbeView::Name(stored), 0);
        self.lemma_listed(image, cat, current, t);
        let pos = slots[t];
        assert(self.entry_valid(image, cat, pos));
        self.lemma_entry_parts(image, cat, pos);
        pos
    }
}

/// The search for an entry of a kind ends inside the listing exactly where
/// an entry has the name and the kind.
pub proof fn lemma_first_of_kind(entries: Seq<EntryView>, name: Seq<u8>, directory: bool, from: int)
    requires
        0 <= from <= entries.len(),
    ensures
        from <= first_of_kind(entries, name, directory, from) <= entries.len(),
        first_of_kind(entries, name, directory, from) < entries.len() ==> entries[first_of_kind(
            entries,
            name,
            directory,
            from,
        )].name == name && entries[first_of_kind(entries, name, directory, from)].is_directory()
            == directory,
    decreases entries.len() - from,
{
    if from < entries.len() && !(entries[from].name == name && entries[from].is_directory()
        == directory) {
        lemma_first_of_kind(entries, name, directory, from + 1);
    }
}

} // verus!
