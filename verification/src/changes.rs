//! Where two images differ: a change is described by the FAT entries and the
//! data clusters that it may have touched, and everything that stands
//! elsewhere is found in the second image as it was in the first.

use vstd::prelude::*;
use vstd::arithmetic::div_mod::lemma_fundamental_div_mod_converse;
use crate::directory::SLOT_SIZE;
use crate::fat32::FAT32;
use crate::frame::{agree, same_slots};
use crate::image::patched;

verus! {

/// The clusters of a chain, as a set of numbers.
pub open spec fn cluster_set(chain: Seq<u32>) -> Set<int> {
    Set::new(|c: int| exists|k: int| 0 <= k < chain.len() && chain[k] as int == c)
}

/// No cluster of the chain is in the set.
pub open spec fn avoids(chain: Seq<u32>, set: Set<int>) -> bool {
    forall|k: int| 0 <= k < chain.len() ==> !set.contains(#[trigger] chain[k] as int)
}

impl FAT32 {
    /// The byte at `pos` belongs neither to one of the given FAT entries
    /// nor to the data of one of the given clusters.
    pub open spec fn untouched(&self, pos: int, entries: Set<int>, clusters: Set<int>) -> bool {
        if pos < self.data_region_offset {
            pos < self.fat_offset || !entries.contains((pos - self.fat_offset) / 4)
        } else {
            !clusters.contains(2 + (pos - self.data_region_offset) / self.cluster_size())
        }
    }

    /// The second image differs from the first at most in the given FAT
    /// entries and in the data of the given clusters.
    pub open spec fn changed_within(
        &self,
        a: Seq<u8>,
        b: Seq<u8>,
        entries: Set<int>,
        clusters: Set<int>,
    ) -> bool {
        &&& a.len() == b.len()
        &&& forall|i: int|
            0 <= i < a.len() && #[trigger] self.untouched(i, entries, clusters) ==> a[i] == b[i]
    }

    /// A byte of the data of a cluster belongs to that cluster.
    pub proof fn lemma_byte_in_cluster(&self, cluster: int, pos: int)
        requires
            self.wf(),
            cluster >= 2,
            self.data_region_offset + (cluster - 2) * self.cluster_size() <= pos
                < self.data_region_offset + (cluster - 2) * self.cluster_size()
                + self.cluster_size(),
        ensures
            pos >= self.data_region_offset,
            2 + (pos - self.data_region_offset) / self.cluster_size() == cluster,
    {
        self.lemma_bounds();
        let size = self.cluster_size();
        let k = cluster - 2;
        let within = pos - self.data_region_offset - k * size;
        assert(k * size >= 0) by (nonlinear_arith)
            requires
                k >= 0,
                size > 0,
        ;
        lemma_fundamental_div_mod_converse(pos - self.data_region_offset, size, k, within);
    }

    /// A byte of the FAT entry of a cluster belongs to that entry.
    pub proof fn lemma_byte_in_entry(&self, cluster: u32, pos: int)
        requires
            self.fat_pos(cluster) <= pos < self.fat_pos(cluster) + 4,
        ensures
            pos >= self.fat_offset,
            (pos - self.fat_offset) / 4 == cluster,
    {
    }

    /// Setting a FAT entry in front of the data region changes that entry
    /// only.
    pub proof fn lemma_with_next_changes(&self, image: Seq<u8>, cluster: u32, value: u32)
        requires
            self.in_table(cluster),
        ensures
            self.changed_within(
                image,
                self.with_next(image, cluster, value),
                set![cluster as int],
                Set::empty(),
            ),
    {
        let after = self.with_next(image, cluster, value);
        assert forall|i: int|
            0 <= i < image.len() && #[trigger] self.untouched(
                i,
                set![cluster as int],
                Set::empty(),
            ) implies image[i] == after[i] by {
            if self.fat_pos(cluster) <= i < self.fat_pos(cluster) + 4 {
                self.lemma_byte_in_entry(cluster, i);
            }
        }
    }

    /// A write inside the data of a cluster changes that cluster only.
    pub proof fn lemma_patch_changes(&self, image: Seq<u8>, pos: int, data: Seq<u8>, cluster: u32)
        requires
            self.wf(),
            cluster >= 2,
            self.cluster_offset(cluster) <= pos,
            pos + data.len() <= self.cluster_offset(cluster) + self.cluster_size(),
        ensures
            self.changed_within(
                image,
                patched(image, pos, data),
                Set::empty(),
                set![cluster as int],
            ),
    {
        let after = patched(image, pos, data);
        assert forall|i: int|
            0 <= i < image.len() && #[trigger] self.untouched(
                i,
                Set::empty(),
                set![cluster as int],
            ) implies image[i] == after[i] by {
            if pos <= i < pos + data.len() {
                self.lemma_byte_in_cluster(cluster as int, i);
            }
        }
    }

    /// Two changes, one after the other, touch what either touches.
    pub proof fn lemma_changes_compose(
        &self,
        a: Seq<u8>,
        b: Seq<u8>,
        c: Seq<u8>,
        e1: Set<int>,
        c1: Set<int>,
        e2: Set<int>,
        c2: Set<int>,
    )
        requires
            self.changed_within(a, b, e1, c1),
            self.changed_within(b, c, e2, c2),
        ensures
            self.changed_within(a, c, e1 + e2, c1 + c2),
    {
        assert forall|i: int|
            0 <= i < a.len() && #[trigger] self.untouched(i, e1 + e2, c1 + c2) implies a[i]
            == c[i] by {
            assert(self.untouched(i, e1, c1));
            assert(self.untouched(i, e2, c2));
        }
    }

    /// A change that touches no FAT entry of a chain leaves its links as
    /// they were.
    pub proof fn lemma_changes_keep_links(
        &self,
        a: Seq<u8>,
        b: Seq<u8>,
        entries: Set<int>,
        clusters: Set<int>,
        chain: Seq<u32>,
    )
        requires
            self.changed_within(a, b, entries, clusters),
            self.all_in_table(chain),
            avoids(chain, entries),
        ensures
            self.same_links(a, b, chain),
    {
        assert forall|k: int| 0 <= k < chain.len() implies agree(
            a,
            b,
            self.fat_pos(#[trigger] chain[k]),
            4,
        ) by {
            let c = chain[k];
            assert(self.in_table(c));
            assert(!entries.contains(c as int));
            assert forall|i: int|
                self.fat_pos(c) <= i < self.fat_pos(c) + 4 && 0 <= i < a.len() implies a[i]
                == b[i] by {
                self.lemma_byte_in_entry(c, i);
                assert(self.untouched(i, entries, clusters));
            }
        }
    }

    /// A change that touches no FAT entry of a cluster leaves the cluster
    /// free or in use as it was.
    pub proof fn lemma_changes_keep_use(
        &self,
        a: Seq<u8>,
        b: Seq<u8>,
        entries: Set<int>,
        clusters: Set<int>,
        cluster: u32,
    )
        requires
            self.changed_within(a, b, entries, clusters),
            self.in_table(cluster),
            !entries.contains(cluster as int),
        ensures
            self.is_free(a, cluster) == self.is_free(b, cluster),
            self.fat_readable(a, cluster) == self.fat_readable(b, cluster),
            self.fat_readable(a, cluster) ==> self.next_of(a, cluster) == self.next_of(b, cluster),
    {
        let chain = seq![cluster];
        assert(self.all_in_table(chain));
        assert(avoids(chain, entries));
        self.lemma_changes_keep_links(a, b, entries, clusters, chain);
        assert(agree(a, b, self.fat_pos(chain[0]), 4));
        self.lemma_next_of_agree(a, b, cluster);
    }

    /// A change that touches no cluster of a chain leaves the slots of the
    /// chain as they were.
    pub proof fn lemma_changes_keep_slots(
        &self,
        a: Seq<u8>,
        b: Seq<u8>,
        entries: Set<int>,
        clusters: Set<int>,
        chain: Seq<u32>,
    )
        requires
            self.sound(),
            self.changed_within(a, b, entries, clusters),
            forall|k: int| 0 <= k < chain.len() ==> (#[trigger] chain[k]) >= 2,
            avoids(chain, clusters),
        ensures
            same_slots(a, b, self.chain_slots(chain), self.chain_slots(chain).len() as int),
        decreases chain.len(),
    {
        if chain.len() > 0 {
            let front = chain.drop_last();
            assert forall|k: int| 0 <= k < front.len() implies (#[trigger] front[k]) >= 2 by {
                assert(front[k] == chain[k]);
            }
            assert forall|k: int| 0 <= k < front.len() implies !clusters.contains(
                #[trigger] front[k] as int,
            ) by {
                assert(front[k] == chain[k]);
            }
            self.lemma_changes_keep_slots(a, b, entries, clusters, front);
            let head = self.chain_slots(front);
            let last = chain.last();
            assert(chain[chain.len() - 1] >= 2 && !clusters.contains(chain[chain.len() - 1] as int));
            let slots = self.chain_slots(chain);
            assert forall|i: int| 0 <= i < slots.len() implies agree(
                a,
                b,
                #[trigger] slots[i],
                SLOT_SIZE as int,
            ) by {
                if i >= head.len() {
                    let j = i - head.len();
                    self.lemma_cluster_slots_aligned(last, j);
                    assert(slots[i] == self.cluster_slots(last)[j]);
                    assert forall|p: int|
                        slots[i] <= p < slots[i] + SLOT_SIZE && 0 <= p < a.len() implies a[p]
                        == b[p] by {
                        self.lemma_byte_in_cluster(last as int, p);
                        assert(self.untouched(p, entries, clusters));
                    }
                } else {
                    assert(slots[i] == head[i]);
                }
            }
        }
    }

    /// A change that touches certain entries and clusters touches at most
    /// what any larger sets hold.
    pub proof fn lemma_changes_widen(
        &self,
        a: Seq<u8>,
        b: Seq<u8>,
        e1: Set<int>,
        c1: Set<int>,
        e2: Set<int>,
        c2: Set<int>,
    )
        requires
            self.changed_within(a, b, e1, c1),
            e1.subset_of(e2),
            c1.subset_of(c2),
        ensures
            self.changed_within(a, b, e2, c2),
    {
        assert forall|i: int|
            0 <= i < a.len() && #[trigger] self.untouched(i, e2, c2) implies a[i] == b[i] by {
            assert(self.untouched(i, e1, c1));
        }
    }

    /// Releasing a chain whose entries lie in front of the data region
    /// changes those entries only.
    pub proof fn lemma_released_changes(&self, image: Seq<u8>, chain: Seq<u32>)
        requires
            self.all_in_table(chain),
        ensures
            self.changed_within(
                image,
                self.released(image, chain),
                cluster_set(chain),
                Set::empty(),
            ),
        decreases chain.len(),
    {
        if chain.len() > 0 {
            let first = chain[0];
            let rest = chain.skip(1);
            let step = self.with_next(image, first, 0);
            assert(self.in_table(chain[0]));
            self.lemma_with_next_changes(image, first, 0);
            assert forall|k: int| 0 <= k < rest.len() implies self.in_table(#[trigger] rest[k]) by {
                assert(rest[k] == chain[k + 1]);
            }
            self.lemma_released_changes(step, rest);
            self.lemma_changes_compose(
                image,
                step,
                self.released(step, rest),
                set![first as int],
                Set::empty(),
                cluster_set(rest),
                Set::empty(),
            );
            assert((set![first as int] + cluster_set(rest)).subset_of(cluster_set(chain))) by {
                assert forall|c: int| (set![first as int] + cluster_set(rest)).contains(
                    c,
                ) implies cluster_set(chain).contains(c) by {
                    if c == first as int {
                        assert(chain[0] as int == c);
                    } else {
                        let k = choose|k: int| 0 <= k < rest.len() && rest[k] as int == c;
                        assert(chain[k + 1] as int == c);
                    }
                }
            }
            self.lemma_changes_widen(
                image,
                self.released(step, rest),
                set![first as int] + cluster_set(rest),
                Set::<int>::empty() + Set::<int>::empty(),
                cluster_set(chain),
                Set::empty(),
            );
        }
    }
}

} // verus!
