//! The volume as a whole: a catalogue of its directories and entries, what
//! it means that an image holds exactly what the catalogue says, and what
//! follows from that for every file and every cluster.

pub mod untouched;
pub mod keeping;
pub mod removing;
pub mod growing;
pub mod adding;
pub mod making;
pub mod writing;
pub mod recording;
pub mod failing;
pub mod undoing;
pub mod laws;

use vstd::prelude::*;
use crate::commands::is_dot_entry;
use crate::directory::{
    is_live, live_entries, scan_from, slot_at, slot_entry, slot_first_cluster, slot_name,
    DirStream, ProbeView, ScanEnd, SLOT_SIZE, SLOT_UNUSED,
};
use crate::error::FsError;
use crate::fat32::FAT32;
use crate::frame::{aligned, lemma_scan_first, stops_at};
use crate::image::in_bounds;
use crate::names::dot_name;
use crate::table::{chain_limit, ChainWalk, END_OF_CHAIN};

verus! {

/// To whom a cluster belongs.
pub enum Owner {
    /// To the directory with this first cluster.
    Directory(u32),
    /// To the file whose entry stands in the slot at this offset.
    File(int),
}

/// What the catalogue records of a directory.
pub struct DirInfo {
    /// The clusters of the directory, in order.
    pub chain: Seq<u32>,
    /// The first cluster of the directory that lists it.
    pub parent: u32,
    /// The offset of the slot of the entry that names it.
    pub entry: int,
    /// How many directories lie between it and the root.
    pub depth: nat,
}

/// What the catalogue records of an entry.
pub struct Node {
    /// The first cluster of the directory that lists the entry.
    pub dir: u32,
    /// The index of the entry's slot in the stream of that directory.
    pub index: int,
    pub directory: bool,
    pub first_cluster: u32,
    pub size: u32,
    /// The clusters of a file, in order; empty for a directory, whose
    /// clusters stand with the directory.
    pub chain: Seq<u32>,
}

/// A catalogue of a volume: its directories by first cluster, its entries
/// by the offset of their slots, the owner of every cluster that stands in
/// a chain, and the clusters that are in use without an owner because a
/// command that failed left them behind.
pub struct Catalog {
    pub dirs: Map<u32, DirInfo>,
    pub entries: Map<int, Node>,
    pub owner: Map<u32, Owner>,
    pub lost: Set<u32>,
}

impl FAT32 {
    /// The image has room for the FAT and for the data of every cluster
    /// that the allocator considers.
    pub open spec fn covers(&self, image: Seq<u8>) -> bool {
        &&& self.sound()
        &&& self.data_region_offset <= image.len()
        &&& self.data_region_offset + (self.total_clusters - 2) * self.cluster_size() <= image.len()
    }

    /// The clusters of the chain differ from each other, lie in the range
    /// of the allocator and belong to `who`.
    pub open spec fn chain_owned(&self, cat: Catalog, chain: Seq<u32>, who: Owner) -> bool {
        &&& chain.no_duplicates()
        &&& forall|k: int|
            0 <= k < chain.len() ==> (#[trigger] chain[k]) < self.total_clusters
                && cat.owner.dom().contains(chain[k]) && cat.owner[chain[k]] == who
    }

    /// The slots of a directory of the catalogue.
    pub open spec fn dir_slots(&self, cat: Catalog, d: u32) -> Seq<int> {
        self.chain_slots(cat.dirs[d].chain)
    }

    /// The index of the slot that ends the listing of a directory of the
    /// catalogue.
    pub open spec fn dir_end(&self, image: Seq<u8>, cat: Catalog, d: u32) -> int {
        scan_from(image, self.dir_slots(cat, d), ProbeView::End, 0)
    }

    /// The short entry in slot `i` of directory `d` is what the catalogue
    /// says: `.` and `..` are directories, the one the directory itself
    /// and the other its parent, and any other entry is recorded with its
    /// place, kind, first cluster and size.
    pub open spec fn slot_valid(&self, image: Seq<u8>, cat: Catalog, d: u32, i: int) -> bool {
        let pos = self.dir_slots(cat, d)[i];
        let slot = slot_at(image, pos);
        if is_dot_entry(slot_name(slot)) {
            &&& d != self.boot_sector.root_cluster
            &&& slot_entry(slot).is_directory()
            &&& slot_name(slot) == dot_name(1) ==> slot_first_cluster(slot) == d
            &&& slot_name(slot) == dot_name(2) ==> slot_first_cluster(slot) == cat.dirs[d].parent
        } else {
            &&& cat.entries.dom().contains(pos)
            &&& cat.entries[pos].dir == d
            &&& cat.entries[pos].index == i
            &&& cat.entries[pos].first_cluster == slot_first_cluster(slot)
            &&& cat.entries[pos].directory == slot_entry(slot).is_directory()
            &&& cat.entries[pos].size == slot_entry(slot).file_size
        }
    }

    /// Slot `i` of the listing of directory `d`, where it holds a short
    /// entry, is what the catalogue says.
    pub open spec fn listed_ok(&self, image: Seq<u8>, cat: Catalog, d: u32, i: int) -> bool {
        is_live(slot_at(image, self.dir_slots(cat, d)[i])) ==> self.slot_valid(image, cat, d, i)
    }

    /// Slot `i` behind the listing of directory `d` is unused.
    pub open spec fn tail_ok(&self, image: Seq<u8>, cat: Catalog, d: u32, i: int) -> bool {
        slot_at(image, self.dir_slots(cat, d)[i])[0] == SLOT_UNUSED
    }

    /// A directory other than the root is named by an entry of its parent,
    /// which lies nearer to the root.
    pub open spec fn parent_ok(&self, cat: Catalog, d: u32) -> bool {
        let info = cat.dirs[d];
        d != self.boot_sector.root_cluster ==> {
            &&& cat.dirs.dom().contains(info.parent)
            &&& cat.dirs[info.parent].depth < info.depth
            &&& cat.entries.dom().contains(info.entry)
            &&& cat.entries[info.entry].directory
            &&& cat.entries[info.entry].first_cluster == d
            &&& cat.entries[info.entry].dir == info.parent
        }
    }

    /// The image holds the directory `d` as the catalogue records it.
    #[verifier::opaque]
    pub open spec fn dir_valid(&self, image: Seq<u8>, cat: Catalog, d: u32) -> bool {
        let info = cat.dirs[d];
        &&& self.linked(image, info.chain)
        &&& info.chain[0] == d
        &&& self.chain_owned(cat, info.chain, Owner::Directory(d))
        &&& self.parent_ok(cat, d)
        &&& forall|i: int|
            0 <= i < self.dir_end(image, cat, d) ==> #[trigger] self.listed_ok(image, cat, d, i)
        &&& forall|i: int|
            self.dir_end(image, cat, d) <= i < self.dir_slots(cat, d).len()
                ==> #[trigger] self.tail_ok(image, cat, d, i)
    }

    /// The chain of a file of the catalogue is the chain that the FAT
    /// links from its first cluster; a file without clusters has the first
    /// cluster zero.
    pub open spec fn file_chain(&self, image: Seq<u8>, first_cluster: u32, chain: Seq<u32>) -> bool {
        if chain.len() == 0 {
            first_cluster == 0
        } else {
            self.linked(image, chain) && chain[0] == first_cluster
        }
    }

    /// The image holds the entry in the slot at `pos` as the catalogue
    /// records it.
    #[verifier::opaque]
    pub open spec fn entry_valid(&self, image: Seq<u8>, cat: Catalog, pos: int) -> bool {
        let node = cat.entries[pos];
        let slot = slot_at(image, pos);
        &&& cat.dirs.dom().contains(node.dir)
        &&& 0 <= node.index < self.dir_end(image, cat, node.dir)
        &&& self.dir_slots(cat, node.dir)[node.index] == pos
        &&& is_live(slot)
        &&& !is_dot_entry(slot_name(slot))
        &&& node.first_cluster == slot_first_cluster(slot)
        &&& node.directory == slot_entry(slot).is_directory()
        &&& node.size == slot_entry(slot).file_size
        &&& node.directory ==> {
            &&& node.first_cluster != self.boot_sector.root_cluster
            &&& cat.dirs.dom().contains(node.first_cluster)
            &&& cat.dirs[node.first_cluster].entry == pos
            &&& cat.dirs[node.first_cluster].parent == node.dir
        }
        &&& !node.directory ==> {
            &&& self.file_chain(image, node.first_cluster, node.chain)
            &&& self.chain_owned(cat, node.chain, Owner::File(pos))
            &&& node.size <= node.chain.len() * self.cluster_size()
        }
    }

    /// The cluster belongs to a directory or a file of the catalogue, and
    /// stands in its chain.
    pub open spec fn owner_valid(&self, cat: Catalog, cluster: u32) -> bool {
        &&& 2 <= cluster < self.total_clusters
        &&& match cat.owner[cluster] {
            Owner::Directory(d) => cat.dirs.dom().contains(d) && cat.dirs[d].chain.contains(
                cluster,
            ),
            Owner::File(pos) => cat.entries.dom().contains(pos) && !cat.entries[pos].directory
                && cat.entries[pos].chain.contains(cluster),
        }
    }

    /// The cluster is in use exactly if it has an owner or is lost, and
    /// not both.
    pub open spec fn use_matches(&self, image: Seq<u8>, cat: Catalog, cluster: u32) -> bool {
        &&& (cat.owner.dom().contains(cluster) || cat.lost.contains(cluster)) <==> !self.is_free(
            image,
            cluster,
        )
        &&& !(cat.owner.dom().contains(cluster) && cat.lost.contains(cluster))
    }

    /// The image holds exactly the volume that the catalogue describes:
    /// the root and every directory below it with its chain and its
    /// entries, every file with its chain, and no cluster in use that
    /// neither belongs to one of them nor is recorded as lost.
    pub open spec fn valid(&self, image: Seq<u8>, cat: Catalog) -> bool {
        &&& self.covers(image)
        &&& cat.dirs.dom().contains(self.boot_sector.root_cluster)
        &&& forall|d: u32| cat.dirs.dom().contains(d) ==> #[trigger] self.dir_valid(image, cat, d)
        &&& forall|pos: int|
            cat.entries.dom().contains(pos) ==> #[trigger] self.entry_valid(image, cat, pos)
        &&& forall|c: u32| cat.owner.dom().contains(c) ==> #[trigger] self.owner_valid(cat, c)
        &&& forall|c: u32|
            2 <= c < self.total_clusters ==> #[trigger] self.use_matches(image, cat, c)
    }
}

impl FAT32 {
    /// Every slot of a chain of clusters from the range of the allocator
    /// lies inside an image that covers the volume, and no two slots are
    /// the same where no two clusters are.
    pub proof fn lemma_slots_inside(&self, image: Seq<u8>, chain: Seq<u32>)
        requires
            self.covers(image),
            forall|k: int| 0 <= k < chain.len() ==> 2 <= (#[trigger] chain[k]) < self.total_clusters,
        ensures
            forall|i: int|
                0 <= i < self.chain_slots(chain).len() ==> in_bounds(
                    image,
                    #[trigger] self.chain_slots(chain)[i],
                    SLOT_SIZE as int,
                ) && aligned(self, self.chain_slots(chain)[i]),
        decreases chain.len(),
    {
        if chain.len() > 0 {
            let front = chain.drop_last();
            assert forall|k: int| 0 <= k < front.len() implies 2 <= (#[trigger] front[k])
                < self.total_clusters by {
                assert(front[k] == chain[k]);
            }
            self.lemma_slots_inside(image, front);
            let head = self.chain_slots(front);
            let last = chain.last();
            assert(2 <= chain[chain.len() - 1] < self.total_clusters);
            self.lemma_bounds();
            let size = self.cluster_size();
            assert((last - 2) * size + size <= (self.total_clusters - 2) * size)
                by (nonlinear_arith)
                requires
                    last + 1 <= self.total_clusters,
                    size > 0,
            ;
            assert forall|i: int| 0 <= i < self.chain_slots(chain).len() implies in_bounds(
                image,
                #[trigger] self.chain_slots(chain)[i],
                SLOT_SIZE as int,
            ) && aligned(self, self.chain_slots(chain)[i]) by {
                if i >= head.len() {
                    self.lemma_cluster_slots_aligned(last, i - head.len());
                    assert(self.chain_slots(chain)[i] == self.cluster_slots(last)[i - head.len()]);
                } else {
                    assert(self.chain_slots(chain)[i] == head[i]);
                }
            }
        }
    }

    /// A directory of a valid volume is what the engine finds at its first
    /// cluster: the stream of its chain, complete, with every slot inside
    /// the image, and a listing that does not fail.
    pub proof fn lemma_dir_found(&self, image: Seq<u8>, cat: Catalog, d: u32)
        requires
            self.covers(image),
            self.dir_valid(image, cat, d),
        ensures
            self.dir_stream(image, d) == (DirStream {
                clusters: cat.dirs[d].chain,
                slots: self.dir_slots(cat, d),
                complete: true,
            }),
            forall|i: int|
                0 <= i < self.dir_slots(cat, d).len() ==> in_bounds(
                    image,
                    #[trigger] self.dir_slots(cat, d)[i],
                    SLOT_SIZE as int,
                ) && aligned(self, self.dir_slots(cat, d)[i]),
            0 <= self.dir_end(image, cat, d) <= self.dir_slots(cat, d).len(),
            self.listing(image, d) == Ok::<Seq<crate::directory::EntryView>, FsError>(
                live_entries(image, self.dir_slots(cat, d), self.dir_end(image, cat, d)),
            ),
            self.all_in_table(cat.dirs[d].chain),
    {
        reveal(FAT32::dir_valid);
        let chain = cat.dirs[d].chain;
        self.lemma_linked_fits(image, chain);
        self.lemma_linked_dir_walk(image, chain, chain_limit(image));
        assert forall|k: int| 0 <= k < chain.len() implies 2 <= (#[trigger] chain[k])
            < self.total_clusters by {}
        self.lemma_slots_inside(image, chain);
        lemma_scan_first(image, self.dir_slots(cat, d), ProbeView::End, 0);
        assert forall|k: int| 0 <= k < chain.len() implies self.in_table(#[trigger] chain[k]) by {
            self.lemma_allocatable_in_table(chain[k]);
        }
    }

    /// In a valid volume the chain of every file is the chain that the FAT
    /// links from the first cluster of its entry, it ends in an end mark,
    /// and the size of the file is at most what the chain holds.
    pub proof fn law_files_fit_their_chains(&self, image: Seq<u8>, cat: Catalog, pos: int)
        requires
            self.valid(image, cat),
            cat.entries.dom().contains(pos),
            !cat.entries[pos].directory,
        ensures
            self.chain_of(image, slot_entry(slot_at(image, pos)).first_cluster) == Ok::<
                Seq<u32>,
                FsError,
            >(cat.entries[pos].chain),
            slot_entry(slot_at(image, pos)).file_size <= cat.entries[pos].chain.len()
                * self.cluster_size(),
            cat.entries[pos].chain.len() > 0 ==> self.next_of(
                image,
                cat.entries[pos].chain.last(),
            ) >= END_OF_CHAIN,
    {
        reveal(FAT32::entry_valid);
        assert(self.entry_valid(image, cat, pos));
        let node = cat.entries[pos];
        if node.chain.len() > 0 {
            self.lemma_linked_fits(image, node.chain);
            self.lemma_linked_chain_walk(image, node.chain, chain_limit(image));
        } else {
            assert(self.chain_walk(image, 0, chain_limit(image)).clusters =~= node.chain);
        }
    }

    /// In a valid volume the chain of every directory ends in an end mark,
    /// and the directory can be listed.
    pub proof fn law_directories_end(&self, image: Seq<u8>, cat: Catalog, d: u32)
        requires
            self.valid(image, cat),
            cat.dirs.dom().contains(d),
        ensures
            self.dir_stream(image, d).complete,
            self.dir_stream(image, d).clusters == cat.dirs[d].chain,
            self.next_of(image, cat.dirs[d].chain.last()) >= END_OF_CHAIN,
            self.listing(image, d) is Ok,
    {
        reveal(FAT32::dir_valid);
        assert(self.dir_valid(image, cat, d));
        self.lemma_dir_found(image, cat, d);
    }

    /// The cluster stands in the chain of a directory or of a file of the
    /// catalogue.
    pub open spec fn in_some_chain(&self, cat: Catalog, cluster: u32) -> bool {
        ||| exists|d: u32| cat.dirs.dom().contains(d) && cat.dirs[d].chain.contains(cluster)
        ||| exists|pos: int|
            cat.entries.dom().contains(pos) && !cat.entries[pos].directory
                && cat.entries[pos].chain.contains(cluster)
    }

    /// In a valid volume that has lost no cluster, the clusters that the
    /// FAT marks as in use are exactly the clusters of the chains of its
    /// directories and files. Where clusters are lost, they are in use
    /// too, and stand in no chain.
    pub proof fn law_in_use_is_in_a_chain(&self, image: Seq<u8>, cat: Catalog, cluster: u32)
        requires
            self.valid(image, cat),
            2 <= cluster < self.total_clusters,
        ensures
            !self.is_free(image, cluster) <==> self.in_some_chain(cat, cluster)
                || cat.lost.contains(cluster),
            !(self.in_some_chain(cat, cluster) && cat.lost.contains(cluster)),
    {
        reveal(FAT32::dir_valid);
        reveal(FAT32::entry_valid);
        assert(self.use_matches(image, cat, cluster));
        if cat.owner.dom().contains(cluster) {
            assert(self.owner_valid(cat, cluster));
        }
        if self.in_some_chain(cat, cluster) {
            if exists|d: u32| cat.dirs.dom().contains(d) && cat.dirs[d].chain.contains(cluster) {
                let d = choose|d: u32|
                    cat.dirs.dom().contains(d) && cat.dirs[d].chain.contains(cluster);
                assert(self.dir_valid(image, cat, d));
                let k = choose|k: int|
                    0 <= k < cat.dirs[d].chain.len() && cat.dirs[d].chain[k] == cluster;
                assert(cat.owner.dom().contains(cat.dirs[d].chain[k]));
            } else {
                let pos = choose|pos: int|
                    cat.entries.dom().contains(pos) && !cat.entries[pos].directory
                        && cat.entries[pos].chain.contains(cluster);
                assert(self.entry_valid(image, cat, pos));
                let k = choose|k: int|
                    0 <= k < cat.entries[pos].chain.len() && cat.entries[pos].chain[k] == cluster;
                assert(cat.owner.dom().contains(cat.entries[pos].chain[k]));
            }
        }
    }

    /// The directory from which `d` is reached after `steps` steps towards
    /// the root.
    pub open spec fn ancestor(&self, cat: Catalog, d: u32, steps: nat) -> u32
        decreases steps,
    {
        if steps == 0 || d == self.boot_sector.root_cluster {
            d
        } else {
            self.ancestor(cat, cat.dirs[d].parent, (steps - 1) as nat)
        }
    }

    /// In a valid volume every directory of the catalogue lies below the
    /// root: the way up through the directories that list it ends there.
    pub proof fn law_directories_descend_from_root(&self, image: Seq<u8>, cat: Catalog, d: u32)
        requires
            self.valid(image, cat),
            cat.dirs.dom().contains(d),
        ensures
            self.ancestor(cat, d, cat.dirs[d].depth) == self.boot_sector.root_cluster,
        decreases cat.dirs[d].depth,
    {
        reveal(FAT32::dir_valid);
        assert(self.dir_valid(image, cat, d));
        if d != self.boot_sector.root_cluster {
            let parent = cat.dirs[d].parent;
            self.law_directories_descend_from_root(image, cat, parent);
            self.lemma_ancestor_more(cat, parent, cat.dirs[parent].depth, (cat.dirs[d].depth - 1) as nat);
        }
    }

    /// More steps than the way to the root has lead to the root as well.
    pub proof fn lemma_ancestor_more(&self, cat: Catalog, d: u32, steps: nat, more: nat)
        requires
            self.ancestor(cat, d, steps) == self.boot_sector.root_cluster,
            steps <= more,
        ensures
            self.ancestor(cat, d, more) == self.boot_sector.root_cluster,
        decreases steps,
    {
        if steps > 0 && d != self.boot_sector.root_cluster {
            self.lemma_ancestor_more(cat, cat.dirs[d].parent, (steps - 1) as nat, (more - 1) as nat);
        }
    }

    /// What the validity of a directory says of its chain.
    pub proof fn lemma_dir_parts(&self, image: Seq<u8>, cat: Catalog, d: u32)
        requires
            self.dir_valid(image, cat, d),
        ensures
            self.linked(image, cat.dirs[d].chain),
            cat.dirs[d].chain[0] == d,
            self.chain_owned(cat, cat.dirs[d].chain, Owner::Directory(d)),
            self.parent_ok(cat, d),
    {
        reveal(FAT32::dir_valid);
    }

    /// What the validity of a directory says of a short entry in its
    /// listing.
    pub proof fn lemma_listed(&self, image: Seq<u8>, cat: Catalog, d: u32, i: int)
        requires
            self.dir_valid(image, cat, d),
            0 <= i < self.dir_end(image, cat, d),
            is_live(slot_at(image, self.dir_slots(cat, d)[i])),
        ensures
            self.slot_valid(image, cat, d, i),
    {
        reveal(FAT32::dir_valid);
        assert(self.listed_ok(image, cat, d, i));
    }

    /// What the validity of an entry says.
    pub proof fn lemma_entry_parts(&self, image: Seq<u8>, cat: Catalog, pos: int)
        requires
            self.entry_valid(image, cat, pos),
        ensures
            cat.dirs.dom().contains(cat.entries[pos].dir),
            0 <= cat.entries[pos].index < self.dir_end(image, cat, cat.entries[pos].dir),
            self.dir_slots(cat, cat.entries[pos].dir)[cat.entries[pos].index] == pos,
            is_live(slot_at(image, pos)),
            !is_dot_entry(slot_name(slot_at(image, pos))),
            cat.entries[pos].first_cluster == slot_first_cluster(slot_at(image, pos)),
            cat.entries[pos].directory == slot_entry(slot_at(image, pos)).is_directory(),
            cat.entries[pos].size == slot_entry(slot_at(image, pos)).file_size,
            cat.entries[pos].directory ==> {
                &&& cat.entries[pos].first_cluster != self.boot_sector.root_cluster
                &&& cat.dirs.dom().contains(cat.entries[pos].first_cluster)
                &&& cat.dirs[cat.entries[pos].first_cluster].entry == pos
                &&& cat.dirs[cat.entries[pos].first_cluster].parent == cat.entries[pos].dir
            },
            !cat.entries[pos].directory ==> {
                &&& self.file_chain(image, cat.entries[pos].first_cluster, cat.entries[pos].chain)
                &&& self.chain_owned(cat, cat.entries[pos].chain, Owner::File(pos))
                &&& cat.entries[pos].size <= cat.entries[pos].chain.len() * self.cluster_size()
            },
    {
        reveal(FAT32::entry_valid);
    }
}

} // verus!
