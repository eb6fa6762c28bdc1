//! How a valid volume stays valid when something is added to it: the
//! directories and entries that the change has not touched carry over, and
//! what is new or changed is shown to be valid on its own.

use vstd::prelude::*;
use crate::changes::avoids;
use crate::directory::SLOT_SIZE;
use crate::fat32::FAT32;
use crate::frame::agree;
use crate::volume::{Catalog, Owner};

verus! {

/// The slot at `pos` lies inside the first image and holds the same bytes in
/// the second.
pub open spec fn slot_kept(a: Seq<u8>, b: Seq<u8>, pos: int) -> bool {
    crate::image::in_bounds(a, pos, SLOT_SIZE as int) && agree(a, b, pos, SLOT_SIZE as int)
}

/// The second catalogue is the first with one entry more, which stands in
/// the slot at `pos` of the directory `current` under the stored name
/// `stored`; every entry of the first catalogue is kept, with its slot as it
/// was.
pub open spec fn entry_made(
    a: Seq<u8>,
    b: Seq<u8>,
    cat: Catalog,
    next: Catalog,
    current: u32,
    stored: Seq<u8>,
    pos: int,
) -> bool {
    &&& !cat.entries.dom().contains(pos)
    &&& next.entries.dom().contains(pos)
    &&& next.entries[pos].dir == current
    &&& crate::directory::slot_name(crate::directory::slot_at(b, pos)) == stored
    &&& forall|q: int| #[trigger]
        next.entries.dom().contains(q) && q != pos ==> cat.entries.dom().contains(q)
            && next.entries[q] == cat.entries[q]
    &&& forall|q: int| cat.entries.dom().contains(q) ==> #[trigger] slot_kept(a, b, q)
}

impl FAT32 {
    /// The second catalogue holds what the first holds: every directory but
    /// `current` as it was, `current` with the same parent, every entry
    /// but the one at `pos` as it was, and every owner.
    pub open spec fn grown_from(&self, cat: Catalog, next: Catalog, current: u32, pos: int) -> bool {
        &&& forall|d: u32| #[trigger]
            cat.dirs.dom().contains(d) ==> next.dirs.dom().contains(d) && (d != current
                ==> next.dirs[d] == cat.dirs[d])
        &&& next.dirs[current].parent == cat.dirs[current].parent
        &&& next.dirs[current].entry == cat.dirs[current].entry
        &&& next.dirs[current].depth == cat.dirs[current].depth
        &&& forall|p: int| #[trigger]
            cat.entries.dom().contains(p) && p != pos ==> next.entries.dom().contains(p)
                && next.entries[p] == cat.entries[p]
        &&& forall|c: u32| #[trigger]
            cat.owner.dom().contains(c) ==> next.owner.dom().contains(c) && next.owner[c]
                == cat.owner[c]
        &&& forall|c: u32| #[trigger] cat.lost.contains(c) ==> next.lost.contains(c)
        &&& cat.entries.dom().contains(pos) ==> !cat.entries[pos].directory
    }

    /// What is new or changed in the second catalogue is valid in the
    /// second image: the directory `current`, every directory and entry
    /// that the first catalogue does not hold, the entry at `pos`, every
    /// owner, and the use of every cluster whose FAT entry or owner has
    /// changed or which is newly lost.
    pub open spec fn new_is_valid(
        &self,
        b: Seq<u8>,
        cat: Catalog,
        next: Catalog,
        entries: Set<int>,
        current: u32,
        pos: int,
    ) -> bool {
        &&& forall|d: u32| #[trigger]
            next.dirs.dom().contains(d) && (d == current || !cat.dirs.dom().contains(d))
                ==> self.dir_valid(b, next, d)
        &&& forall|p: int| #[trigger]
            next.entries.dom().contains(p) && (p == pos || !cat.entries.dom().contains(p))
                ==> self.entry_valid(b, next, p)
        &&& forall|c: u32| next.owner.dom().contains(c) ==> #[trigger] self.owner_valid(next, c)
        &&& forall|c: u32|
            2 <= c < self.total_clusters && (entries.contains(c as int) || next.owner.dom().contains(
                c,
            ) != cat.owner.dom().contains(c) || next.lost.contains(c) != cat.lost.contains(c))
                ==> #[trigger] self.use_matches(b, next, c)
    }

    /// The change touches no FAT entry and no cluster of any directory but
    /// `current`, and no FAT entry of any file but the one at `pos`.
    pub open spec fn others_avoided(
        &self,
        cat: Catalog,
        entries: Set<int>,
        clusters: Set<int>,
        current: u32,
        pos: int,
    ) -> bool {
        &&& forall|d: u32| #[trigger]
            cat.dirs.dom().contains(d) && d != current ==> avoids(cat.dirs[d].chain, entries)
                && avoids(cat.dirs[d].chain, clusters)
        &&& forall|p: int| #[trigger]
            cat.entries.dom().contains(p) && p != pos && !cat.entries[p].directory ==> avoids(
                cat.entries[p].chain,
                entries,
            )
    }

    /// The directory `current` has kept its slots: the second catalogue
    /// records the same slots and maybe more behind them, the second image
    /// holds every slot but the one with index `t` as it was, and the
    /// listing has not become shorter.
    pub open spec fn slots_stay(
        &self,
        a: Seq<u8>,
        b: Seq<u8>,
        cat: Catalog,
        next: Catalog,
        current: u32,
        t: int,
    ) -> bool {
        &&& self.dir_slots(cat, current).len() <= self.dir_slots(next, current).len()
        &&& forall|i: int|
            0 <= i < self.dir_slots(cat, current).len() ==> #[trigger] self.dir_slots(
                next,
                current,
            )[i] == self.dir_slots(cat, current)[i]
        &&& forall|i: int|
            0 <= i < self.dir_slots(cat, current).len() && i != t ==> agree(
                a,
                b,
                #[trigger] self.dir_slots(cat, current)[i],
                SLOT_SIZE as int,
            )
        &&& self.dir_end(b, next, current) >= self.dir_end(a, cat, current)
    }

    /// A directory other than `current` that the first catalogue holds is
    /// valid in the second image and catalogue.
    pub proof fn lemma_grown_dir(
        &self,
        a: Seq<u8>,
        b: Seq<u8>,
        cat: Catalog,
        next: Catalog,
        entries: Set<int>,
        clusters: Set<int>,
        current: u32,
        pos: int,
        d: u32,
    )
        requires
            self.valid(a, cat),
            cat.dirs.dom().contains(current),
            self.changed_within(a, b, entries, clusters),
            self.grown_from(cat, next, current, pos),
            self.others_avoided(cat, entries, clusters, current, pos),
            cat.dirs.dom().contains(d),
            d != current,
            cat.entries.dom().contains(pos) ==> cat.entries[pos].dir == current,
        ensures
            self.dir_valid(b, next, d),
            self.dir_end(b, next, d) == self.dir_end(a, cat, d),
    {
        assert(self.dir_valid(a, cat, d));
        self.lemma_dir_parts(a, cat, d);
        let chain = cat.dirs[d].chain;
        assert(self.chain_owned(next, chain, Owner::Directory(d))) by {
            assert forall|k: int| 0 <= k < chain.len() implies (#[trigger] chain[k])
                < self.total_clusters && next.owner.dom().contains(chain[k])
                && next.owner[chain[k]] == Owner::Directory(d) by {
                assert(cat.owner.dom().contains(chain[k]));
            }
        }
        assert(self.parent_ok(next, d)) by {
            if d != self.boot_sector.root_cluster {
                let info = cat.dirs[d];
                assert(cat.dirs.dom().contains(info.parent));
                assert(cat.entries.dom().contains(info.entry));
            }
        }
        assert(self.same_entries(cat, next, d)) by {
            assert forall|p: int|
                cat.entries.dom().contains(p) && (#[trigger] cat.entries[p]).dir
                    == d implies next.entries.dom().contains(p) && next.entries[p]
                == cat.entries[p] by {
                assert(cat.entries.dom().contains(p));
            }
        }
        self.lemma_other_dir_kept(a, b, cat, next, entries, clusters, d);
    }

    /// An entry other than the one at `pos` that the first catalogue holds
    /// is valid in the second image and catalogue.
    pub proof fn lemma_grown_entry(
        &self,
        a: Seq<u8>,
        b: Seq<u8>,
        cat: Catalog,
        next: Catalog,
        entries: Set<int>,
        clusters: Set<int>,
        current: u32,
        t: int,
        pos: int,
        p: int,
    )
        requires
            self.valid(a, cat),
            cat.dirs.dom().contains(current),
            self.changed_within(a, b, entries, clusters),
            self.grown_from(cat, next, current, pos),
            self.others_avoided(cat, entries, clusters, current, pos),
            self.slots_stay(a, b, cat, next, current, t),
            cat.entries.dom().contains(pos) ==> cat.entries[pos].dir == current,
            0 <= t,
            t < self.dir_slots(cat, current).len() ==> pos == self.dir_slots(cat, current)[t],
            t >= self.dir_slots(cat, current).len() ==> !cat.entries.dom().contains(pos),
            cat.entries.dom().contains(p),
            p != pos,
        ensures
            self.entry_valid(b, next, p),
            crate::image::in_bounds(a, p, SLOT_SIZE as int),
            agree(a, b, p, SLOT_SIZE as int),
    {
        assert(self.entry_valid(a, cat, p));
        self.lemma_entry_parts(a, cat, p);
        let node = cat.entries[p];
        assert(self.dir_valid(a, cat, node.dir));
        self.lemma_dir_found(a, cat, node.dir);
        assert(self.entry_kept(cat, next, p)) by {
            assert(cat.dirs.dom().contains(node.dir));
            if node.directory {
                assert(cat.dirs.dom().contains(node.first_cluster));
                assert(self.dir_valid(a, cat, node.first_cluster));
                self.lemma_dir_parts(a, cat, node.first_cluster);
                if node.first_cluster == current {
                    assert(next.dirs[current].entry == p);
                }
            } else {
                assert forall|k: int| 0 <= k < node.chain.len() implies (#[trigger] node.chain[k])
                    < self.total_clusters && next.owner.dom().contains(node.chain[k])
                    && next.owner[node.chain[k]] == Owner::File(p) by {
                    assert(cat.owner.dom().contains(node.chain[k]));
                }
            }
        }
        if node.dir == current {
            assert(self.dir_slots(next, current)[node.index] == self.dir_slots(
                cat,
                current,
            )[node.index]);
            assert(node.index != t);
            assert(agree(a, b, self.dir_slots(cat, current)[node.index], SLOT_SIZE as int));
            self.lemma_entry_kept(a, b, cat, next, entries, clusters, p);
        } else {
            self.lemma_grown_dir(a, b, cat, next, entries, clusters, current, pos, node.dir);
            assert(self.dir_kept(cat, next, node.dir)) by {
                self.lemma_dir_parts(b, next, node.dir);
                assert forall|q: int|
                    cat.entries.dom().contains(q) && (#[trigger] cat.entries[q]).dir
                        == node.dir implies next.entries.dom().contains(q) && next.entries[q]
                    == cat.entries[q] by {
                    assert(cat.entries.dom().contains(q));
                }
            }
            self.lemma_entry_elsewhere(a, b, cat, next, entries, clusters, p);
        }
    }

    /// A valid volume to which something has been added is valid, where
    /// what is new or changed is valid on its own and the change has kept
    /// clear of everything else.
    pub proof fn lemma_volume_grows(
        &self,
        a: Seq<u8>,
        b: Seq<u8>,
        cat: Catalog,
        next: Catalog,
        entries: Set<int>,
        clusters: Set<int>,
        current: u32,
        t: int,
        pos: int,
    )
        requires
            self.valid(a, cat),
            cat.dirs.dom().contains(current),
            self.changed_within(a, b, entries, clusters),
            self.grown_from(cat, next, current, pos),
            self.others_avoided(cat, entries, clusters, current, pos),
            self.slots_stay(a, b, cat, next, current, t),
            self.new_is_valid(b, cat, next, entries, current, pos),
            cat.entries.dom().contains(pos) ==> cat.entries[pos].dir == current,
            0 <= t,
            t < self.dir_slots(cat, current).len() ==> pos == self.dir_slots(cat, current)[t],
            t >= self.dir_slots(cat, current).len() ==> !cat.entries.dom().contains(pos),
        ensures
            self.valid(b, next),
            forall|p: int|
                cat.entries.dom().contains(p) && p != pos ==> #[trigger] slot_kept(a, b, p),
    {
        assert(cat.dirs.dom().contains(self.boot_sector.root_cluster));
        assert forall|d: u32| next.dirs.dom().contains(d) implies #[trigger] self.dir_valid(
            b,
            next,
            d,
        ) by {
            if d != current && cat.dirs.dom().contains(d) {
                self.lemma_grown_dir(a, b, cat, next, entries, clusters, current, pos, d);
            }
        }
        assert forall|p: int| next.entries.dom().contains(p) implies #[trigger] self.entry_valid(
            b,
            next,
            p,
        ) by {
            if p != pos && cat.entries.dom().contains(p) {
                self.lemma_grown_entry(a, b, cat, next, entries, clusters, current, t, pos, p);
            }
        }
        assert forall|p: int|
            cat.entries.dom().contains(p) && p != pos implies #[trigger] slot_kept(a, b, p) by {
            self.lemma_grown_entry(a, b, cat, next, entries, clusters, current, t, pos, p);
        }
        assert forall|c: u32| 2 <= c < self.total_clusters implies #[trigger] self.use_matches(
            b,
            next,
            c,
        ) by {
            if !entries.contains(c as int) && next.owner.dom().contains(c)
                == cat.owner.dom().contains(c) && next.lost.contains(c) == cat.lost.contains(c) {
                self.lemma_use_kept(a, b, cat, next, entries, clusters, c);
            }
        }
    }
}

} // verus!
