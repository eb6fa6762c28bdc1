//! Commands that fail: a rename, a removal or the creation of a file that
//! fails leaves the image of a valid volume as it was.

use vstd::prelude::*;
use crate::commands::{
    creat_outcome, first_named, has_name, lemma_first_named, rename_outcome, rm_outcome,
    rmdir_outcome,
};
use crate::directory::{
    is_live, scan_from, slot_at, slot_entry, slot_first_cluster, slot_name, ProbeView, ScanEnd,
    SLOT_DELETED, SLOT_SIZE,
};
use crate::fat32::FAT32;
use crate::frame::lemma_scan_first;
use crate::image::{in_bounds, patched};
use crate::names::short_name;
use crate::open_files::OpenFiles;
use crate::table::{chain_limit, FreeScan, END_OF_CHAIN, FIRST_DATA_CLUSTER};
use crate::changes::{avoids, cluster_set};
use crate::commands::{unquoted, write_outcome};
use crate::open_files::OpenFileView;
use crate::frame::agree;
use crate::volume::{Catalog, Owner};

verus! {

/// A rename that fails leaves the image as it was.
pub proof fn law_failed_rename_changes_nothing(
    fs: &FAT32,
    image: Seq<u8>,
    current: u32,
    name: Seq<u8>,
    other: Seq<u8>,
    table: &OpenFiles,
)
    requires
        rename_outcome(fs, image, current, name, other, table).result is Err,
    ensures
        rename_outcome(fs, image, current, name, other, table).image == image,
{
}

impl FAT32 {
    /// The data of a cluster from the range of the allocator lies inside an
    /// image that covers the volume, whatever has been written to the
    /// image.
    pub proof fn lemma_cluster_inside(&self, image: Seq<u8>, other: Seq<u8>, cluster: u32)
        requires
            self.covers(image),
            other.len() == image.len(),
            2 <= cluster < self.total_clusters,
        ensures
            in_bounds(other, self.cluster_offset(cluster), self.cluster_size()),
    {
        self.lemma_bounds();
        let size = self.cluster_size();
        assert((cluster - 2) * size + size <= (self.total_clusters - 2) * size)
            by (nonlinear_arith)
            requires
                cluster + 1 <= self.total_clusters,
                size > 0,
        ;
    }

    /// Adding an entry to a directory of a valid volume fails only where
    /// the directory is full and no cluster is free, and then it changes
    /// nothing.
    pub proof fn lemma_failed_add(&self, a: Seq<u8>, cat: Catalog, current: u32, entry: Seq<u8>)
        requires
            self.covers(a),
            self.dir_valid(a, cat, current),
            entry.len() == SLOT_SIZE,
            self.added(a, current, entry).result is Err,
        ensures
            self.added(a, current, entry).image == a,
            self.find(a, current, ProbeView::Vacant) is Ended,
            !(self.free_scan(a, FIRST_DATA_CLUSTER) is Free),
    {
        self.lemma_dir_found(a, cat, current);
        let slots = self.dir_slots(cat, current);
        lemma_scan_first(a, slots, ProbeView::Vacant, 0);
        self.lemma_free_scan(a, FIRST_DATA_CLUSTER);
        if self.free_scan(a, FIRST_DATA_CLUSTER) is Free {
            let fresh = self.free_scan(a, FIRST_DATA_CLUSTER)->Free_0;
            let last = self.dir_stream(a, current).clusters.last();
            let linked = self.with_next(self.with_next(a, fresh, END_OF_CHAIN), last, fresh);
            self.lemma_cluster_inside(a, linked, fresh);
            let blank = patched(
                linked,
                self.cluster_offset(fresh),
                crate::edit::zeros(self.cluster_size()),
            );
            assert(in_bounds(blank, self.cluster_offset(fresh), SLOT_SIZE as int));
        }
    }

    /// The creation of a file that fails leaves the image of a valid
    /// volume as it was.
    pub proof fn law_failed_creat_changes_nothing(
        &self,
        image: Seq<u8>,
        cat: Catalog,
        current: u32,
        name: Seq<u8>,
    )
        requires
            self.valid(image, cat),
            cat.dirs.dom().contains(current),
            creat_outcome(self, image, current, name).result is Err,
        ensures
            creat_outcome(self, image, current, name).image == image,
    {
        assert(self.dir_valid(image, cat, current));
        self.lemma_dir_found(image, cat, current);
        let entries = self.listing(image, current).unwrap();
        if !has_name(entries, short_name(name)) {
            self.lemma_failed_add(image, cat, current, crate::edit::fresh_entry(name, 0, false));
        }
    }

    /// In a valid volume the removal of an entry that is listed, and that
    /// names a file or a directory of the catalogue, succeeds.
    pub proof fn lemma_removal_succeeds(
        &self,
        a: Seq<u8>,
        cat: Catalog,
        current: u32,
        name: Seq<u8>,
    )
        requires
            self.valid(a, cat),
            cat.dirs.dom().contains(current),
            self.listing(a, current) is Ok,
            has_name(self.listing(a, current).unwrap(), name),
            !crate::commands::is_dot_entry(name),
        ensures
            crate::commands::removed(
                self,
                a,
                current,
                name,
                self.listing(a, current).unwrap()[first_named(
                    self.listing(a, current).unwrap(),
                    name,
                    0,
                )].first_cluster,
            ).result is Ok,
    {
        assert(self.dir_valid(a, cat, current));
        self.lemma_dir_found(a, cat, current);
        self.lemma_dir_parts(a, cat, current);
        let slots = self.dir_slots(cat, current);
        self.lemma_listing_locates(a, current, name);
        let t = scan_from(a, slots, ProbeView::Name(name), 0);
        lemma_scan_first(a, slots, ProbeView::Name(name), 0);
        let pos = slots[t];
        self.lemma_listed(a, cat, current, t);
        assert(self.entry_valid(a, cat, pos));
        self.lemma_entry_parts(a, cat, pos);
        let node = cat.entries[pos];
        let marked = patched(a, pos, seq![SLOT_DELETED]);
        if node.directory {
            let gone = node.first_cluster;
            assert(self.dir_valid(a, cat, gone));
            self.lemma_dir_parts(a, cat, gone);
            if gone == current {
                assert(cat.dirs[current].depth < cat.dirs[current].depth);
            }
            let home = self.lemma_without(
                a,
                cat,
                current,
                t,
                cat.dirs[gone].chain,
                Owner::Directory(gone),
            );
        } else if node.chain.len() > 0 {
            let home = self.lemma_without(a, cat, current, t, node.chain, Owner::File(pos));
        } else {
            assert(self.freed(marked, 0, chain_limit(marked)) == (marked, true));
        }
    }

    /// The removal of a file that fails leaves the image of a valid volume
    /// as it was.
    pub proof fn law_failed_rm_changes_nothing(
        &self,
        image: Seq<u8>,
        cat: Catalog,
        current: u32,
        name: Seq<u8>,
        table: &OpenFiles,
    )
        requires
            self.valid(image, cat),
            cat.dirs.dom().contains(current),
            rm_outcome(self, image, current, name, table).result is Err,
        ensures
            rm_outcome(self, image, current, name, table).image == image,
    {
        assert(self.dir_valid(image, cat, current));
        self.lemma_dir_found(image, cat, current);
        let entries = self.listing(image, current).unwrap();
        let stored = short_name(name);
        let i = first_named(entries, stored, 0);
        lemma_first_named(entries, stored, 0);
        if i < entries.len() && !entries[i].is_directory() && !table.is_open(
            crate::commands::key_text(name),
        ) {
            self.lemma_file_name_is_plain(image, cat, current, stored);
            self.lemma_removal_succeeds(image, cat, current, stored);
        }
    }

    /// In a valid volume an entry that is listed under the stored form of
    /// `.` or `..` is a directory.
    pub proof fn lemma_file_name_is_plain(&self, a: Seq<u8>, cat: Catalog, current: u32, name: Seq<u8>)
        requires
            self.valid(a, cat),
            cat.dirs.dom().contains(current),
            self.listing(a, current) is Ok,
            has_name(self.listing(a, current).unwrap(), name),
            !self.listing(a, current).unwrap()[first_named(
                self.listing(a, current).unwrap(),
                name,
                0,
            )].is_directory(),
        ensures
            !crate::commands::is_dot_entry(name),
    {
        assert(self.dir_valid(a, cat, current));
        self.lemma_dir_found(a, cat, current);
        let slots = self.dir_slots(cat, current);
        self.lemma_listing_locates(a, current, name);
        let t = scan_from(a, slots, ProbeView::Name(name), 0);
        lemma_scan_first(a, slots, ProbeView::Name(name), 0);
        self.lemma_listed(a, cat, current, t);
    }

    /// The removal of a directory that fails leaves the image of a valid
    /// volume as it was.
    pub proof fn law_failed_rmdir_changes_nothing(
        &self,
        image: Seq<u8>,
        cat: Catalog,
        current: u32,
        name: Seq<u8>,
    )
        requires
            self.valid(image, cat),
            cat.dirs.dom().contains(current),
            rmdir_outcome(self, image, current, name).result is Err,
        ensures
            rmdir_outcome(self, image, current, name).image == image,
    {
        assert(self.dir_valid(image, cat, current));
        self.lemma_dir_found(image, cat, current);
        let entries = self.listing(image, current).unwrap();
        let stored = short_name(name);
        let i = first_named(entries, stored, 0);
        lemma_first_named(entries, stored, 0);
        if !crate::commands::is_special(name) && i < entries.len() && entries[i].is_directory() {
            crate::volume::keeping::lemma_plain_name_is_no_dot_entry(name);
            self.lemma_removal_succeeds(image, cat, current, stored);
        }
    }

    /// The catalogue with one lost cluster more.
    pub open spec fn with_lost(cat: Catalog, cluster: u32) -> Catalog {
        Catalog {
            dirs: cat.dirs,
            entries: cat.entries,
            owner: cat.owner,
            lost: cat.lost.insert(cluster),
        }
    }

    /// A free cluster that has been set up as a directory without an entry
    /// that names it is lost, and the volume is valid otherwise.
    pub proof fn lemma_set_up_lost(&self, a: Seq<u8>, cat: Catalog, current: u32, fresh: u32)
        requires
            self.valid(a, cat),
            cat.dirs.dom().contains(current),
            2 <= fresh < self.total_clusters,
            self.is_free(a, fresh),
        ensures
            self.valid(self.set_up(a, fresh, current), Self::with_lost(cat, fresh)),
    {
        let a1 = self.set_up(a, fresh, current);
        let next = Self::with_lost(cat, fresh);
        let touched = set![fresh as int];
        let slots = self.dir_slots(cat, current);
        let len = slots.len() as int;
        let pos = self.cluster_offset(fresh);
        self.lemma_set_up(a, fresh, current);
        self.lemma_set_up_apart(a, cat, current, fresh, ProbeView::Vacant);
        self.lemma_fresh_unowned(a, cat, fresh);
        self.lemma_no_entry_in_fresh(a, cat, fresh);
        assert(self.dir_valid(a, cat, current));
        self.lemma_dir_found(a, cat, current);
        assert(self.dir_valid(a1, next, current)) by {
            self.lemma_dir_kept_same(a, cat, current);
            self.lemma_dir_parts(a, cat, current);
            assert(self.dir_kept(cat, next, current));
            self.lemma_other_dir_kept(a, a1, cat, next, touched, touched, current);
        }
        assert(self.dir_end(a1, next, current) == self.dir_end(a1, cat, current));
        assert(self.grown_from(cat, next, current, pos));
        assert(self.others_avoided(cat, touched, touched, current, pos));
        assert(self.slots_stay(a, a1, cat, next, current, len));
        assert(self.new_is_valid(a1, cat, next, touched, current, pos)) by {
            assert forall|c: u32| next.owner.dom().contains(c) implies #[trigger] self.owner_valid(
                next,
                c,
            ) by {
                assert(self.owner_valid(cat, c));
            }
            assert forall|c: u32|
                2 <= c < self.total_clusters && (touched.contains(c as int)
                    || next.owner.dom().contains(c) != cat.owner.dom().contains(c)
                    || next.lost.contains(c) != cat.lost.contains(c)) implies #[trigger] self.use_matches(
                a1,
                next,
                c,
            ) by {
                assert(self.linked(a1, seq![fresh]));
                assert(self.fat_readable(a1, seq![fresh][0]));
                assert(seq![fresh].last() == fresh);
            }
        }
        self.lemma_volume_grows(a, a1, cat, next, touched, touched, current, len, pos);
    }

    /// The creation of a directory that fails leaves a valid volume valid.
    /// Either nothing has changed, or the cluster that was set up for the
    /// directory is lost, because the full parent could not grow.
    pub proof fn law_failed_mkdir_keeps_volume(
        &self,
        image: Seq<u8>,
        cat: Catalog,
        current: u32,
        name: Seq<u8>,
    ) -> (next: Catalog)
        requires
            self.valid(image, cat),
            cat.dirs.dom().contains(current),
            crate::commands::mkdir_outcome(self, image, current, name).result is Err,
        ensures
            self.valid(crate::commands::mkdir_outcome(self, image, current, name).image, next),
            next.dirs == cat.dirs,
            next.entries == cat.entries,
            next.owner == cat.owner,
            cat.lost.subset_of(next.lost),
            crate::commands::mkdir_outcome(self, image, current, name).image == image ==> next
                == cat,
    {
        assert(self.dir_valid(image, cat, current));
        self.lemma_dir_found(image, cat, current);
        let entries = self.listing(image, current).unwrap();
        self.lemma_free_scan(image, FIRST_DATA_CLUSTER);
        if !has_name(entries, short_name(name)) && self.free_scan(
            image,
            FIRST_DATA_CLUSTER,
        ) is Free {
            let fresh = self.free_scan(image, FIRST_DATA_CLUSTER)->Free_0;
            let a1 = self.set_up(image, fresh, current);
            self.lemma_set_up(image, fresh, current);
            self.lemma_set_up_apart(image, cat, current, fresh, ProbeView::Vacant);
            self.lemma_failed_add(
                a1,
                cat,
                current,
                crate::edit::fresh_entry(name, fresh, true),
            );
            self.lemma_set_up_lost(image, cat, current, fresh);
            assert(a1 != image) by {
                assert(self.linked(a1, seq![fresh]));
                assert(seq![fresh].last() == fresh);
            }
            Self::with_lost(cat, fresh)
        } else {
            cat
        }
    }

    /// The catalogue with the clusters of a chain lost.
    pub open spec fn with_lost_chain(cat: Catalog, chain: Seq<u32>) -> Catalog {
        Catalog {
            dirs: cat.dirs,
            entries: cat.entries,
            owner: cat.owner,
            lost: cat.lost + chain.to_set(),
        }
    }

    /// A chain of clusters that were free, linked in the FAT without an
    /// entry that holds its first cluster, is lost, and the volume is valid
    /// otherwise.
    pub proof fn lemma_chain_lost(
        &self,
        a: Seq<u8>,
        x: Seq<u8>,
        cat: Catalog,
        current: u32,
        chain: Seq<u32>,
    )
        requires
            self.valid(a, cat),
            cat.dirs.dom().contains(current),
            chain.len() > 0,
            self.grown_by_free(a, Seq::empty(), chain),
            self.linked(x, chain),
            self.changed_within(a, x, cluster_set(chain), Set::empty()),
        ensures
            self.valid(x, Self::with_lost_chain(cat, chain)),
    {
        let next = Self::with_lost_chain(cat, chain);
        let touched = cluster_set(chain);
        let none = Set::<int>::empty();
        let slots = self.dir_slots(cat, current);
        let len = slots.len() as int;
        let first = chain[0];
        let pos = self.cluster_offset(first);
        assert(self.is_free(a, chain[0]));
        self.lemma_fresh_unowned(a, cat, first);
        self.lemma_no_entry_in_fresh(a, cat, first);
        assert(self.dir_valid(a, cat, current));
        self.lemma_dir_found(a, cat, current);
        self.lemma_dir_parts(a, cat, current);
        // No chain of the catalogue holds one of the clusters.
        assert forall|d: u32| #[trigger] cat.dirs.dom().contains(d) implies avoids(
            cat.dirs[d].chain,
            touched,
        ) by {
            assert(self.dir_valid(a, cat, d));
            self.lemma_dir_parts(a, cat, d);
            self.lemma_free_apart(a, cat, chain, cat.dirs[d].chain, Owner::Directory(d));
        }
        assert forall|p: int| #[trigger]
            cat.entries.dom().contains(p) && !cat.entries[p].directory implies avoids(
            cat.entries[p].chain,
            touched,
        ) by {
            assert(self.entry_valid(a, cat, p));
            self.lemma_entry_parts(a, cat, p);
            self.lemma_free_apart(a, cat, chain, cat.entries[p].chain, Owner::File(p));
        }
        assert(self.dir_valid(x, next, current) && self.dir_end(x, next, current) == self.dir_end(
            a,
            cat,
            current,
        ) && crate::frame::same_slots(a, x, slots, len)) by {
            self.lemma_dir_kept_same(a, cat, current);
            assert(self.dir_kept(cat, next, current));
            crate::volume::keeping::lemma_avoids_all(cat.dirs[current].chain);
            self.lemma_other_dir_kept(a, x, cat, next, touched, none, current);
        }
        assert(self.grown_from(cat, next, current, pos));
        assert(self.others_avoided(cat, touched, none, current, pos)) by {
            assert forall|d: u32| #[trigger]
                cat.dirs.dom().contains(d) && d != current implies avoids(
                cat.dirs[d].chain,
                touched,
            ) && avoids(cat.dirs[d].chain, none) by {
                crate::volume::keeping::lemma_avoids_all(cat.dirs[d].chain);
            }
        }
        assert(self.slots_stay(a, x, cat, next, current, len));
        assert(self.new_is_valid(x, cat, next, touched, current, pos)) by {
            assert forall|c: u32| next.owner.dom().contains(c) implies #[trigger] self.owner_valid(
                next,
                c,
            ) by {
                assert(self.owner_valid(cat, c));
            }
            assert forall|c: u32|
                2 <= c < self.total_clusters && (touched.contains(c as int)
                    || next.owner.dom().contains(c) != cat.owner.dom().contains(c)
                    || next.lost.contains(c) != cat.lost.contains(c)) implies #[trigger] self.use_matches(
                x,
                next,
                c,
            ) by {
                assert(self.use_matches(a, cat, c));
                if chain.to_set().contains(c) || touched.contains(c as int) {
                    let k = if chain.to_set().contains(c) {
                        choose|k: int| 0 <= k < chain.len() && chain[k] == c
                    } else {
                        choose|k: int| 0 <= k < chain.len() && chain[k] as int == c as int
                    };
                    assert(chain[k] == c);
                    assert(chain.to_set().contains(chain[k]));
                    assert(self.is_free(a, chain[k]));
                    assert(self.fat_readable(x, chain[k]));
                    if k < chain.len() - 1 {
                        assert(self.next_of(x, chain[k]) == chain[k + 1]);
                        assert(chain[k + 1] >= 2);
                    } else {
                        assert(chain[k] == chain.last());
                    }
                }
            }
        }
        self.lemma_volume_grows(a, x, cat, next, touched, none, current, len, pos);
    }

    /// A chain of the catalogue shares no cluster with clusters that were
    /// free.
    pub proof fn lemma_free_apart(
        &self,
        a: Seq<u8>,
        cat: Catalog,
        fresh: Seq<u32>,
        other: Seq<u32>,
        whose: Owner,
    )
        requires
            self.valid(a, cat),
            self.grown_by_free(a, Seq::empty(), fresh),
            self.chain_owned(cat, other, whose),
        ensures
            avoids(other, cluster_set(fresh)),
    {
        assert forall|j: int| 0 <= j < other.len() implies !cluster_set(fresh).contains(
            #[trigger] other[j] as int,
        ) by {
            if cluster_set(fresh).contains(other[j] as int) {
                let k = choose|k: int| 0 <= k < fresh.len() && fresh[k] as int == other[j] as int;
                assert(self.is_free(a, fresh[k]));
                assert(self.use_matches(a, cat, fresh[k]));
                assert(cat.owner.dom().contains(other[j]));
            }
        }
    }

    /// A file whose chain has grown without a change to its entry is valid
    /// with the longer chain, and the volume with it.
    pub proof fn lemma_chain_longer(
        &self,
        a: Seq<u8>,
        x: Seq<u8>,
        cat: Catalog,
        pos: int,
        longer: Seq<u32>,
    )
        requires
            self.valid(a, cat),
            cat.entries.dom().contains(pos),
            !cat.entries[pos].directory,
            cat.entries[pos].chain.len() > 0,
            self.grown_by_free(a, cat.entries[pos].chain, longer),
            longer.no_duplicates(),
            self.linked(x, longer),
            self.changed_within(a, x, cluster_set(longer), Set::empty()),
        ensures
            self.valid(x, Self::with_written(cat, pos, longer, cat.entries[pos].size)),
    {
        let node = cat.entries[pos];
        let chain = node.chain;
        let current = node.dir;
        let t = node.index;
        let next = Self::with_written(cat, pos, longer, node.size);
        let touched = cluster_set(longer);
        let none = Set::<int>::empty();
        let slots = self.dir_slots(cat, current);
        assert(self.entry_valid(a, cat, pos));
        self.lemma_entry_parts(a, cat, pos);
        assert(self.dir_valid(a, cat, current));
        self.lemma_dir_found(a, cat, current);
        self.lemma_dir_parts(a, cat, current);
        self.lemma_with_written(a, cat, pos, longer, node.size);
        assert(longer[0] == chain[0]);
        let dir_chain = cat.dirs[current].chain;
        self.lemma_owned_in_table(cat, dir_chain, Owner::Directory(current));
        self.lemma_changes_keep_links(a, x, touched, none, dir_chain);
        crate::volume::keeping::lemma_avoids_all(dir_chain);
        assert forall|k: int| 0 <= k < dir_chain.len() implies (#[trigger] dir_chain[k]) >= 2 by {}
        self.lemma_changes_keep_slots(a, x, touched, none, dir_chain);
        crate::frame::lemma_same_slot(a, x, pos);
        assert(self.dir_valid(x, next, current) && self.dir_end(x, next, current) == self.dir_end(
            a,
            cat,
            current,
        )) by {
            assert(slot_at(a, pos)[0] != crate::directory::SLOT_UNUSED);
            assert(self.listed_ok(x, next, current, t));
            self.lemma_dir_slot_changed(a, x, cat, next, current, t);
        }
        assert(node.size <= longer.len() * self.cluster_size()) by {
            self.lemma_bounds();
            assert(chain.len() * self.cluster_size() <= longer.len() * self.cluster_size())
                by (nonlinear_arith)
                requires
                    chain.len() <= longer.len(),
                    self.cluster_size() > 0,
            ;
        }
        assert(self.entry_valid(x, next, pos)) by {
            reveal(FAT32::entry_valid);
        }
        assert(self.others_avoided(cat, touched, none, current, pos)) by {
            assert forall|d: u32| #[trigger]
                cat.dirs.dom().contains(d) && d != current implies avoids(
                cat.dirs[d].chain,
                touched,
            ) && avoids(cat.dirs[d].chain, none) by {
                crate::volume::keeping::lemma_avoids_all(cat.dirs[d].chain);
            }
        }
        assert(self.slots_stay(a, x, cat, next, current, t));
        assert(self.new_is_valid(x, cat, next, touched, current, pos)) by {
            assert forall|c: u32|
                2 <= c < self.total_clusters && (touched.contains(c as int)
                    || next.owner.dom().contains(c) != cat.owner.dom().contains(c)
                    || next.lost.contains(c) != cat.lost.contains(c)) implies #[trigger] self.use_matches(
                x,
                next,
                c,
            ) by {
                assert(self.use_matches(a, cat, c));
                if longer.contains(c) {
                    let k = choose|k: int| 0 <= k < longer.len() && longer[k] == c;
                    assert(self.fat_readable(x, longer[k]));
                    if k < longer.len() - 1 {
                        assert(self.next_of(x, longer[k]) == longer[k + 1]);
                        assert(longer[k + 1] >= 2);
                    } else {
                        assert(longer[k] == longer.last());
                    }
                    if k >= chain.len() {
                        assert(self.is_free(a, longer[k]));
                    }
                } else if touched.contains(c as int) {
                    let k = choose|k: int| 0 <= k < longer.len() && longer[k] as int == c as int;
                    assert(longer.contains(longer[k]));
                }
            }
        }
        self.lemma_volume_grows(a, x, cat, next, touched, none, current, t, pos);
    }

    /// A write that fails leaves a valid volume valid. Either nothing has
    /// changed, or the volume had no room for all the clusters that the
    /// data needs: then the clusters that the write took stand at the end
    /// of the chain of the file, or are lost where the file had no chain.
    ///
    /// The law speaks of a write through a record that belongs to the
    /// entry: the name stands for the entry in the current directory, and
    /// the record holds the first cluster of the entry.
    pub proof fn law_failed_write_keeps_volume(
        &self,
        image: Seq<u8>,
        cat: Catalog,
        current: u32,
        name: Seq<u8>,
        text: Seq<u8>,
        record: OpenFileView,
        pos: int,
    ) -> (next: Catalog)
        requires
            self.valid(image, cat),
            cat.dirs.dom().contains(current),
            cat.entries.dom().contains(pos),
            cat.entries[pos].dir == current,
            !cat.entries[pos].directory,
            self.locate(image, current, ProbeView::Name(short_name(name))) == Ok::<
                int,
                crate::error::FsError,
            >(pos),
            record.first_cluster == cat.entries[pos].first_cluster,
            write_outcome(self, image, current, name, text, record).result is Err,
        ensures
            self.valid(write_outcome(self, image, current, name, text, record).image, next),
            next.dirs == cat.dirs,
            cat.lost.subset_of(next.lost),
    {
        let a = image;
        let node = cat.entries[pos];
        let chain = node.chain;
        let data = unquoted(text);
        assert(self.entry_valid(a, cat, pos));
        self.lemma_entry_parts(a, cat, pos);
        self.law_files_fit_their_chains(a, cat, pos);
        if record.mode.can_write() && record.offset + data.len() <= u32::MAX {
            let written = self.written(a, chain, record.offset as int, data);
            if written.result is Ok {
                let home = self.lemma_write_image(a, cat, current, name, text, record, pos);
                cat
            } else {
                let required = self.clusters_for(record.offset + data.len());
                let need = if required > chain.len() {
                    (required - chain.len()) as nat
                } else {
                    0
                };
                let growth = self.grown(a, chain, need);
                assert forall|k: int| 0 <= k < chain.len() implies (#[trigger] chain[k])
                    < self.total_clusters by {}
                self.lemma_grown_chain(a, chain, need);
                assert forall|j: int| 0 <= j < growth.chain.len() implies 2
                    <= (#[trigger] growth.chain[j]) < self.total_clusters by {
                    if j < chain.len() {
                        assert(growth.chain[j] == chain[j]);
                    }
                }
                self.lemma_stored_succeeds(a, growth.image, growth.chain, record.offset as int, data);
                assert(written == growth);
                let x = growth.image;
                let longer = growth.chain;
                if chain.len() > 0 {
                    self.lemma_chain_longer(a, x, cat, pos, longer);
                    Self::with_written(cat, pos, longer, node.size)
                } else if longer.len() > 0 {
                    assert(chain =~= Seq::<u32>::empty());
                    self.lemma_chain_lost(a, x, cat, current, longer);
                    Self::with_lost_chain(cat, longer)
                } else {
                    assert(x =~= a) by {
                        assert forall|i: int| 0 <= i < a.len() implies a[i] == x[i] by {
                            assert(self.untouched(i, cluster_set(longer), Set::empty()));
                        }
                    }
                    cat
                }
            }
        } else {
            cat
        }
    }
}

} // verus!
