//! What a write leaves in the image: the chain of the file, grown by
//! clusters that were free, the data in the clusters of the chain, and
//! everything else as it was.

use vstd::prelude::*;
use crate::changes::{avoids, cluster_set};
use crate::fat32::FAT32;
use crate::file_io::Growth;
use crate::frame::agree;
use crate::image::{in_bounds, patched};
use crate::table::{FreeScan, END_OF_CHAIN, FAT_MASK, FIRST_DATA_CLUSTER};

verus! {

impl FAT32 {
    /// The chain is empty or a chain of the FAT.
    pub open spec fn linked_or_empty(&self, image: Seq<u8>, chain: Seq<u32>) -> bool {
        chain.len() > 0 ==> self.linked(image, chain)
    }

    /// Every cluster that the longer chain has more than the shorter one
    /// was free in the image and lies in the range of the allocator.
    pub open spec fn grown_by_free(&self, image: Seq<u8>, chain: Seq<u32>, longer: Seq<u32>) -> bool {
        &&& chain.len() <= longer.len()
        &&& forall|k: int| 0 <= k < chain.len() ==> #[trigger] longer[k] == chain[k]
        &&& forall|k: int|
            chain.len() <= k < longer.len() ==> 2 <= #[trigger] longer[k] < self.total_clusters
                && self.is_free(image, longer[k])
    }

    /// What growing a chain of the FAT leaves, whether it comes to its end
    /// or breaks off for want of a free cluster: the longer chain is a
    /// chain of the FAT again, its new clusters were free, and nothing but
    /// the FAT entries of its clusters has changed.
    pub proof fn lemma_grown_chain(&self, image: Seq<u8>, chain: Seq<u32>, need: nat)
        requires
            self.sound(),
            self.linked_or_empty(image, chain),
            chain.no_duplicates(),
            forall|k: int| 0 <= k < chain.len() ==> (#[trigger] chain[k]) < self.total_clusters,
        ensures
            self.grown(image, chain, need).image.len() == image.len(),
            self.grown(image, chain, need).result is Ok ==> self.grown(
                image,
                chain,
                need,
            ).chain.len() == chain.len() + need,
            self.grown(image, chain, need).chain.no_duplicates(),
            self.grown_by_free(image, chain, self.grown(image, chain, need).chain),
            self.linked_or_empty(
                self.grown(image, chain, need).image,
                self.grown(image, chain, need).chain,
            ),
            self.changed_within(
                image,
                self.grown(image, chain, need).image,
                cluster_set(self.grown(image, chain, need).chain),
                Set::empty(),
            ),
        decreases need,
    {
        if need == 0 || !(self.free_scan(image, FIRST_DATA_CLUSTER) is Free) {
            assert(self.changed_within(image, image, cluster_set(chain), Set::empty()));
        } else {
            self.lemma_bounds();
            self.lemma_free_scan(image, FIRST_DATA_CLUSTER);
            let fresh = self.free_scan(image, FIRST_DATA_CLUSTER)->Free_0;
            let marked = self.with_next(image, fresh, END_OF_CHAIN);
            let longer = chain.push(fresh);
            self.lemma_with_next(image, fresh, END_OF_CHAIN);
            self.lemma_allocatable_in_table(fresh);
            self.lemma_with_next_changes(image, fresh, END_OF_CHAIN);
            assert(END_OF_CHAIN & FAT_MASK == END_OF_CHAIN) by (bit_vector);
            assert(!chain.contains(fresh)) by {
                if chain.contains(fresh) {
                    let k = choose|k: int| 0 <= k < chain.len() && chain[k] == fresh;
                    assert(self.linked(image, chain));
                    if k < chain.len() - 1 {
                        assert(self.next_of(image, chain[k]) == chain[k + 1]);
                        assert(chain[k + 1] >= 2);
                    } else {
                        assert(chain[k] == chain.last());
                    }
                }
            }
            assert(longer.no_duplicates()) by {
                assert forall|i: int, j: int|
                    0 <= i < longer.len() && 0 <= j < longer.len() && i != j implies longer[i]
                    != longer[j] by {
                    if i < chain.len() {
                        assert(longer[i] == chain[i]);
                        assert(chain.contains(chain[i]));
                    }
                    if j < chain.len() {
                        assert(longer[j] == chain[j]);
                        assert(chain.contains(chain[j]));
                    }
                }
            }
            assert forall|k: int| 0 <= k < longer.len() implies (#[trigger] longer[k])
                < self.total_clusters by {
                if k < chain.len() {
                    assert(longer[k] == chain[k]);
                }
            }
            let step = if chain.len() == 0 {
                marked
            } else {
                self.with_next(marked, chain.last(), fresh)
            };
            let touched = if chain.len() == 0 {
                set![fresh as int]
            } else {
                set![fresh as int, chain.last() as int]
            };
            if chain.len() == 0 {
                assert(self.linked(marked, longer)) by {
                    assert(longer.last() == fresh);
                    assert(longer[0] == fresh);
                }
            } else {
                let last = chain.last();
                assert(chain[chain.len() - 1] < self.total_clusters);
                self.lemma_allocatable_in_table(last);
                self.lemma_with_next(marked, last, fresh);
                self.lemma_linked_grow(image, chain, fresh);
                self.lemma_with_next_changes(marked, last, fresh);
                self.lemma_changes_compose(
                    image,
                    marked,
                    step,
                    set![fresh as int],
                    Set::empty(),
                    set![last as int],
                    Set::empty(),
                );
                self.lemma_changes_widen(
                    image,
                    step,
                    set![fresh as int] + set![last as int],
                    Set::<int>::empty() + Set::<int>::empty(),
                    touched,
                    Set::empty(),
                );
            }
            assert(self.grown(image, chain, need) == self.grown(step, longer, (need - 1) as nat));
            self.lemma_grown_chain(step, longer, (need - 1) as nat);
            let end = self.grown(step, longer, (need - 1) as nat);
            // The clusters that came later were free from the start.
            assert(self.grown_by_free(image, chain, end.chain)) by {
                assert forall|k: int| 0 <= k < chain.len() implies #[trigger] end.chain[k]
                    == chain[k] by {
                    assert(end.chain[k] == longer[k]);
                }
                assert forall|k: int| chain.len() <= k < end.chain.len() implies 2
                    <= #[trigger] end.chain[k] < self.total_clusters && self.is_free(
                    image,
                    end.chain[k],
                ) by {
                    if k == chain.len() {
                        assert(end.chain[k] == longer[k]);
                    } else {
                        let c = end.chain[k];
                        assert(end.chain[chain.len() as int] == longer[chain.len() as int]);
                        assert(c != fresh);
                        if chain.len() > 0 {
                            assert(end.chain[chain.len() - 1] == longer[chain.len() - 1]);
                            assert(c != chain.last());
                        }
                        self.lemma_allocatable_in_table(c);
                        self.lemma_changes_keep_use(image, step, touched, Set::empty(), c);
                    }
                }
            }
            assert(touched.subset_of(cluster_set(end.chain))) by {
                assert(end.chain[chain.len() as int] == longer[chain.len() as int]);
                assert(cluster_set(end.chain).contains(fresh as int));
                if chain.len() > 0 {
                    assert(end.chain[chain.len() - 1] == longer[chain.len() - 1]);
                    assert(cluster_set(end.chain).contains(chain.last() as int));
                }
            }
            self.lemma_changes_widen(
                image,
                step,
                touched,
                Set::empty(),
                cluster_set(end.chain),
                Set::empty(),
            );
            self.lemma_changes_compose(
                image,
                step,
                end.image,
                cluster_set(end.chain),
                Set::empty(),
                cluster_set(end.chain),
                Set::empty(),
            );
            self.lemma_changes_widen(
                image,
                end.image,
                cluster_set(end.chain) + cluster_set(end.chain),
                Set::<int>::empty() + Set::<int>::empty(),
                cluster_set(end.chain),
                Set::empty(),
            );
        }
    }

    /// A store that succeeds changes nothing but the data of the clusters
    /// of the chain.
    pub proof fn lemma_stored_changes(&self, image: Seq<u8>, chain: Seq<u32>, k: int, data: Seq<u8>)
        requires
            self.wf(),
            self.stored(image, chain, k, data).1 is Ok,
        ensures
            self.changed_within(
                image,
                self.stored(image, chain, k, data).0,
                Set::empty(),
                cluster_set(chain),
            ),
        decreases data.len(),
    {
        self.lemma_bounds();
        let size = self.cluster_size();
        let index = k / size;
        let within = k % size;
        if data.len() == 0 || index >= chain.len() || k < 0 || size <= 0 {
            assert(self.changed_within(image, image, Set::empty(), cluster_set(chain)));
        } else {
            self.lemma_data_pos(chain, k);
            let piece = if data.len() <= size - within {
                data.len() as int
            } else {
                size - within
            };
            let cluster = chain[index];
            let start = self.cluster_offset(cluster) + within;
            let first = patched(image, start, data.take(piece));
            self.lemma_patch_changes(image, start, data.take(piece), cluster);
            self.lemma_stored_changes(first, chain, k + piece, data.skip(piece));
            let last = self.stored(first, chain, k + piece, data.skip(piece)).0;
            assert(set![cluster as int].subset_of(cluster_set(chain))) by {
                assert(chain[index] as int == cluster as int);
            }
            self.lemma_changes_widen(
                image,
                first,
                Set::empty(),
                set![cluster as int],
                Set::empty(),
                cluster_set(chain),
            );
            self.lemma_changes_compose(
                image,
                first,
                last,
                Set::empty(),
                cluster_set(chain),
                Set::empty(),
                cluster_set(chain),
            );
            self.lemma_changes_widen(
                image,
                last,
                Set::<int>::empty() + Set::<int>::empty(),
                cluster_set(chain) + cluster_set(chain),
                Set::empty(),
                cluster_set(chain),
            );
        }
    }

    /// What a write that succeeds leaves: the chain, grown by clusters
    /// that were free, as a chain of the FAT with room for the data, and
    /// no change but in the FAT entries and the data of its clusters.
    pub proof fn lemma_written(&self, image: Seq<u8>, chain: Seq<u32>, offset: int, data: Seq<u8>)
        requires
            self.sound(),
            0 <= offset,
            self.linked_or_empty(image, chain),
            chain.no_duplicates(),
            forall|k: int| 0 <= k < chain.len() ==> (#[trigger] chain[k]) < self.total_clusters,
            self.written(image, chain, offset, data).result is Ok,
        ensures
            self.written(image, chain, offset, data).image.len() == image.len(),
            self.written(image, chain, offset, data).chain.no_duplicates(),
            self.grown_by_free(image, chain, self.written(image, chain, offset, data).chain),
            self.linked_or_empty(
                self.written(image, chain, offset, data).image,
                self.written(image, chain, offset, data).chain,
            ),
            offset + data.len() <= self.written(image, chain, offset, data).chain.len()
                * self.cluster_size(),
            self.changed_within(
                image,
                self.written(image, chain, offset, data).image,
                cluster_set(self.written(image, chain, offset, data).chain),
                cluster_set(self.written(image, chain, offset, data).chain),
            ),
    {
        self.lemma_bounds();
        let size = self.cluster_size();
        let required = self.clusters_for(offset + data.len());
        let need = if required > chain.len() {
            (required - chain.len()) as nat
        } else {
            0
        };
        let growth = self.grown(image, chain, need);
        self.lemma_grown_chain(image, chain, need);
        self.lemma_clusters_for(offset + data.len());
        assert(required * size <= growth.chain.len() * size) by (nonlinear_arith)
            requires
                required <= growth.chain.len(),
                size > 0,
        ;
        self.lemma_stored_changes(growth.image, growth.chain, offset, data);
        let after = self.stored(growth.image, growth.chain, offset, data).0;
        self.lemma_changes_compose(
            image,
            growth.image,
            after,
            cluster_set(growth.chain),
            Set::empty(),
            Set::empty(),
            cluster_set(growth.chain),
        );
        self.lemma_changes_widen(
            image,
            after,
            cluster_set(growth.chain) + Set::<int>::empty(),
            Set::<int>::empty() + cluster_set(growth.chain),
            cluster_set(growth.chain),
            cluster_set(growth.chain),
        );
        if growth.chain.len() > 0 {
            assert(self.all_in_table(growth.chain)) by {
                assert forall|k: int| 0 <= k < growth.chain.len() implies self.in_table(
                    #[trigger] growth.chain[k],
                ) by {
                    if k < chain.len() {
                        assert(growth.chain[k] == chain[k]);
                    }
                    self.lemma_allocatable_in_table(growth.chain[k]);
                }
            }
            crate::volume::keeping::lemma_avoids_all(growth.chain);
            self.lemma_changes_keep_links(
                growth.image,
                after,
                Set::empty(),
                cluster_set(growth.chain),
                growth.chain,
            );
            self.lemma_linked_frame(growth.image, after, growth.chain);
        }
    }

    /// A slot in which the first cluster has been recorded holds that
    /// first cluster, and the name, attribute and size that it held.
    pub proof fn lemma_first_cluster_written(image: Seq<u8>, pos: int, first_cluster: u32)
        requires
            in_bounds(image, pos, 32),
        ensures
            Self::with_first_cluster(image, pos, first_cluster).len() == image.len(),
            crate::directory::slot_first_cluster(
                crate::directory::slot_at(
                    Self::with_first_cluster(image, pos, first_cluster),
                    pos,
                ),
            ) == first_cluster,
            crate::directory::slot_name(
                crate::directory::slot_at(
                    Self::with_first_cluster(image, pos, first_cluster),
                    pos,
                ),
            ) == crate::directory::slot_name(crate::directory::slot_at(image, pos)),
            crate::directory::slot_at(Self::with_first_cluster(image, pos, first_cluster), pos)[0]
                == crate::directory::slot_at(image, pos)[0],
            crate::directory::slot_at(Self::with_first_cluster(image, pos, first_cluster), pos)[11]
                == crate::directory::slot_at(image, pos)[11],
            crate::directory::slot_entry(
                crate::directory::slot_at(
                    Self::with_first_cluster(image, pos, first_cluster),
                    pos,
                ),
            ).file_size == crate::directory::slot_entry(
                crate::directory::slot_at(image, pos),
            ).file_size,
            forall|i: int|
                0 <= i < image.len() && !(pos <= i < pos + 32) ==> Self::with_first_cluster(
                    image,
                    pos,
                    first_cluster,
                )[i] == image[i],
    {
        let high = (first_cluster / 0x1_0000) as u16;
        let low = (first_cluster % 0x1_0000) as u16;
        let after = Self::with_first_cluster(image, pos, first_cluster);
        let slot = crate::directory::slot_at(after, pos);
        let before = crate::directory::slot_at(image, pos);
        crate::image::lemma_u16_round_trip(high);
        crate::image::lemma_u16_round_trip(low);
        assert(slot[20] == crate::image::u16_bytes(high)[0]);
        assert(slot[21] == crate::image::u16_bytes(high)[1]);
        assert(slot[26] == crate::image::u16_bytes(low)[0]);
        assert(slot[27] == crate::image::u16_bytes(low)[1]);
        assert(crate::image::u16_at(slot, 20) == high);
        assert(crate::image::u16_at(slot, 26) == low);
        assert(crate::directory::slot_name(slot) =~= crate::directory::slot_name(before));
        assert(slot[0] == before[0]);
        assert(slot[11] == before[11]);
        assert(slot[28] == before[28]);
        assert(slot[29] == before[29]);
        assert(slot[30] == before[30]);
        assert(slot[31] == before[31]);
    }

    /// A slot in which the size has been recorded holds that size, and the
    /// name, attribute and first cluster that it held.
    pub proof fn lemma_size_written(image: Seq<u8>, pos: int, size: u32)
        requires
            in_bounds(image, pos, 32),
        ensures
            patched(image, pos + 28, crate::image::u32_bytes(size)).len() == image.len(),
            crate::directory::slot_entry(
                crate::directory::slot_at(
                    patched(image, pos + 28, crate::image::u32_bytes(size)),
                    pos,
                ),
            ).file_size == size,
            crate::directory::slot_first_cluster(
                crate::directory::slot_at(
                    patched(image, pos + 28, crate::image::u32_bytes(size)),
                    pos,
                ),
            ) == crate::directory::slot_first_cluster(crate::directory::slot_at(image, pos)),
            crate::directory::slot_name(
                crate::directory::slot_at(
                    patched(image, pos + 28, crate::image::u32_bytes(size)),
                    pos,
                ),
            ) == crate::directory::slot_name(crate::directory::slot_at(image, pos)),
            crate::directory::slot_at(
                patched(image, pos + 28, crate::image::u32_bytes(size)),
                pos,
            )[0] == crate::directory::slot_at(image, pos)[0],
            crate::directory::slot_at(
                patched(image, pos + 28, crate::image::u32_bytes(size)),
                pos,
            )[11] == crate::directory::slot_at(image, pos)[11],
            forall|i: int|
                0 <= i < image.len() && !(pos <= i < pos + 32) ==> patched(
                    image,
                    pos + 28,
                    crate::image::u32_bytes(size),
                )[i] == image[i],
    {
        let after = patched(image, pos + 28, crate::image::u32_bytes(size));
        let slot = crate::directory::slot_at(after, pos);
        let before = crate::directory::slot_at(image, pos);
        crate::image::lemma_u32_round_trip(size);
        assert(slot[28] == crate::image::u32_bytes(size)[0]);
        assert(slot[29] == crate::image::u32_bytes(size)[1]);
        assert(slot[30] == crate::image::u32_bytes(size)[2]);
        assert(slot[31] == crate::image::u32_bytes(size)[3]);
        assert(crate::image::u32_at(slot, 28) == size);
        assert(crate::directory::slot_name(slot) =~= crate::directory::slot_name(before));
        assert(slot[0] == before[0]);
        assert(slot[11] == before[11]);
        assert(slot[20] == before[20]);
        assert(slot[21] == before[21]);
        assert(slot[26] == before[26]);
        assert(slot[27] == before[27]);
    }

    /// A store through a chain of clusters from the range of the allocator
    /// succeeds in an image that covers the volume.
    pub proof fn lemma_stored_succeeds(
        &self,
        whole: Seq<u8>,
        image: Seq<u8>,
        chain: Seq<u32>,
        k: int,
        data: Seq<u8>,
    )
        requires
            self.covers(whole),
            image.len() == whole.len(),
            forall|j: int| 0 <= j < chain.len() ==> 2 <= (#[trigger] chain[j]) < self.total_clusters,
        ensures
            self.stored(image, chain, k, data).1 is Ok,
        decreases data.len(),
    {
        self.lemma_bounds();
        let size = self.cluster_size();
        let index = k / size;
        let within = k % size;
        if !(data.len() == 0 || index >= chain.len() || k < 0 || size <= 0) {
            self.lemma_data_pos(chain, k);
            let piece = if data.len() <= size - within {
                data.len() as int
            } else {
                size - within
            };
            let cluster = chain[index];
            assert(2 <= chain[index] < self.total_clusters);
            self.lemma_cluster_inside(whole, image, cluster);
            let start = self.cluster_offset(cluster) + within;
            let first = patched(image, start, data.take(piece));
            self.lemma_stored_succeeds(whole, first, chain, k + piece, data.skip(piece));
        }
    }

    /// A write that succeeds leaves the chain as a chain of the FAT, as
    /// long as the data needs it, and the data in its place. The old chain
    /// is the beginning of the new one, the new chain has the clusters that
    /// the end of the data needs where the old one had fewer, every byte of
    /// the data stands at its offset in the chain, and no other byte of the
    /// data region has changed.
    ///
    /// The law speaks of a sound geometry, where no FAT entry lies in the
    /// data region, and of a chain without repeated clusters that is empty
    /// or a chain of the FAT.
    pub proof fn law_write_links_the_chain(
        &self,
        image: Seq<u8>,
        chain: Seq<u32>,
        offset: int,
        data: Seq<u8>,
    )
        requires
            self.sound(),
            0 <= offset,
            self.linked_or_empty(image, chain),
            chain.no_duplicates(),
            forall|k: int| 0 <= k < chain.len() ==> (#[trigger] chain[k]) < self.total_clusters,
            self.written(image, chain, offset, data).result is Ok,
        ensures
            self.written(image, chain, offset, data).chain.len() == if self.clusters_for(
                offset + data.len(),
            ) > chain.len() {
                self.clusters_for(offset + data.len())
            } else {
                chain.len() as int
            },
            forall|k: int|
                0 <= k < chain.len() ==> #[trigger] self.written(image, chain, offset, data).chain[k]
                    == chain[k],
            self.linked_or_empty(
                self.written(image, chain, offset, data).image,
                self.written(image, chain, offset, data).chain,
            ),
            forall|i: int|
                0 <= i < data.len() ==> #[trigger] self.byte_readable(
                    self.written(image, chain, offset, data).image,
                    self.written(image, chain, offset, data).chain,
                    offset + i,
                ) && self.written(image, chain, offset, data).image[self.data_pos(
                    self.written(image, chain, offset, data).chain,
                    offset + i,
                )] == data[i],
            forall|p: int|
                self.data_region_offset <= p < image.len() && (forall|i: int|
                    0 <= i < data.len() ==> #[trigger] self.data_pos(
                        self.written(image, chain, offset, data).chain,
                        offset + i,
                    ) != p) ==> #[trigger] self.written(image, chain, offset, data).image[p]
                    == image[p],
    {
        self.lemma_bounds();
        let size = self.cluster_size();
        let required = self.clusters_for(offset + data.len());
        let need = if required > chain.len() {
            (required - chain.len()) as nat
        } else {
            0
        };
        let growth = self.grown(image, chain, need);
        self.lemma_grown_chain(image, chain, need);
        self.lemma_written(image, chain, offset, data);
        self.lemma_clusters_for(offset + data.len());
        assert(required * size <= growth.chain.len() * size) by (nonlinear_arith)
            requires
                required <= growth.chain.len(),
                size > 0,
        ;
        self.lemma_stored(growth.image, growth.chain, offset, data);
        let after = self.written(image, chain, offset, data).image;
        assert forall|p: int|
            self.data_region_offset <= p < image.len() && (forall|i: int|
                0 <= i < data.len() ==> #[trigger] self.data_pos(growth.chain, offset + i)
                    != p) implies #[trigger] after[p] == image[p] by {
            assert(self.untouched(p, cluster_set(growth.chain), Set::empty()));
            assert(after[p] == growth.image[p]);
        }
    }
}

} // verus!
