//! What holds of reads and writes of file data taken together: what was
//! written is what a read returns.

use vstd::prelude::*;
use vstd::arithmetic::div_mod::{
    lemma_div_pos_is_pos, lemma_fundamental_div_mod, lemma_fundamental_div_mod_converse,
    lemma_mod_bound,
};
use crate::error::FsError;
use crate::fat32::FAT32;
use crate::file_io::Growth;
use crate::image::{in_bounds, patched};
use crate::table::{FreeScan, END_OF_CHAIN, FAT_MASK, FIRST_DATA_CLUSTER};

verus! {

impl FAT32 {
    /// No cluster of the chain is marked free.
    pub open spec fn all_in_use(&self, image: Seq<u8>, chain: Seq<u32>) -> bool {
        forall|i: int| 0 <= i < chain.len() ==> !self.is_free(image, #[trigger] chain[i])
    }

    /// Where byte `k` of a chain's data lies: in the cluster with index
    /// `k / size`, at `k % size` bytes from its start.
    pub proof fn lemma_data_pos(&self, chain: Seq<u32>, k: int)
        requires
            self.wf(),
            self.holds_data(),
            0 <= k,
        ensures
            0 <= k / self.cluster_size(),
            0 <= k % self.cluster_size() < self.cluster_size(),
            k == (k / self.cluster_size()) * self.cluster_size() + k % self.cluster_size(),
            k < self.capacity(chain) ==> k / self.cluster_size() < chain.len(),
    {
        self.lemma_bounds();
        let size = self.cluster_size();
        lemma_fundamental_div_mod(k, size);
        lemma_mod_bound(k, size);
        lemma_div_pos_is_pos(k, size);
        assert(size * (k / size) == (k / size) * size) by (nonlinear_arith);
        if k < self.capacity(chain) && k / size >= chain.len() {
            assert((k / size) * size >= chain.len() * size) by (nonlinear_arith)
                requires
                    k / size >= chain.len(),
                    size > 0,
            ;
        }
    }

    /// Different bytes of the data of a chain without repeated clusters lie
    /// at different offsets in the image.
    pub proof fn lemma_data_pos_injective(&self, chain: Seq<u32>, m1: int, m2: int)
        requires
            self.wf(),
            self.holds_data(),
            chain.no_duplicates(),
            0 <= m1 < self.capacity(chain),
            0 <= m2 < self.capacity(chain),
            m1 != m2,
        ensures
            self.data_pos(chain, m1) != self.data_pos(chain, m2),
    {
        self.lemma_bounds();
        self.lemma_data_pos(chain, m1);
        self.lemma_data_pos(chain, m2);
        let size = self.cluster_size();
        let i1 = m1 / size;
        let i2 = m2 / size;
        if i1 != i2 {
            let c1 = chain[i1] as int;
            let c2 = chain[i2] as int;
            assert(c1 != c2);
            if c1 < c2 {
                assert((c1 - 2) * size + size <= (c2 - 2) * size) by (nonlinear_arith)
                    requires
                        c1 + 1 <= c2,
                        size > 0,
                ;
            } else {
                assert((c2 - 2) * size + size <= (c1 - 2) * size) by (nonlinear_arith)
                    requires
                        c2 + 1 <= c1,
                        size > 0,
                ;
            }
        }
    }

    /// Growing a chain whose clusters are in use and differ from each other
    /// gives such a chain again; the old chain is its beginning, and where
    /// the growth succeeds, the chain has grown by the clusters asked for.
    pub proof fn lemma_grown(&self, image: Seq<u8>, chain: Seq<u32>, need: nat)
        requires
            self.wf(),
            self.total_clusters <= crate::fat32::MAX_CLUSTERS,
            chain.no_duplicates(),
            self.all_in_use(image, chain),
        ensures
            self.grown(image, chain, need).chain.no_duplicates(),
            self.all_in_use(self.grown(image, chain, need).image, self.grown(image, chain, need).chain),
            self.grown(image, chain, need).image.len() == image.len(),
            self.grown(image, chain, need).result is Ok ==> self.grown(image, chain, need).chain.len()
                == chain.len() + need,
        decreases need,
    {
        if need > 0 {
            self.lemma_free_scan(image, FIRST_DATA_CLUSTER);
            match self.free_scan(image, FIRST_DATA_CLUSTER) {
                FreeScan::Free(fresh) => {
                    self.lemma_bounds();
                    let marked = self.with_next(image, fresh, END_OF_CHAIN);
                    self.lemma_with_next(image, fresh, END_OF_CHAIN);
                    assert(END_OF_CHAIN & FAT_MASK == END_OF_CHAIN) by (bit_vector);
                    assert(fresh & FAT_MASK == fresh) by (bit_vector)
                        requires
                            fresh < 0x0FFF_FFF8u32,
                    ;
                    let longer = chain.push(fresh);
                    assert(longer.no_duplicates()) by {
                        assert forall|i: int, j: int|
                            0 <= i < longer.len() && 0 <= j < longer.len() && i != j implies longer[i]
                            != longer[j] by {
                            if i < chain.len() && j < chain.len() {
                                assert(chain[i] != chain[j]);
                            } else if i < chain.len() {
                                assert(!self.is_free(image, chain[i]));
                            } else {
                                assert(!self.is_free(image, chain[j]));
                            }
                        }
                    }
                    assert forall|i: int| 0 <= i < chain.len() implies !self.is_free(
                        marked,
                        #[trigger] chain[i],
                    ) by {
                        assert(!self.is_free(image, chain[i]));
                    }
                    if chain.len() == 0 {
                        assert(self.all_in_use(marked, longer));
                        self.lemma_grown(marked, longer, (need - 1) as nat);
                    } else if self.fat_readable(marked, chain.last()) {
                        let linked = self.with_next(marked, chain.last(), fresh);
                        self.lemma_with_next(marked, chain.last(), fresh);
                        assert forall|i: int| 0 <= i < longer.len() implies !self.is_free(
                            linked,
                            #[trigger] longer[i],
                        ) by {
                            if i < chain.len() {
                                assert(!self.is_free(marked, chain[i]));
                                assert(longer[i] == chain[i]);
                            }
                        }
                        self.lemma_grown(linked, longer, (need - 1) as nat);
                    }
                },
                _ => {},
            }
        }
    }

    /// What a successful store leaves in the image: every byte of the data
    /// at its place in the chain, and every other byte as it was.
    pub proof fn lemma_stored(&self, image: Seq<u8>, chain: Seq<u32>, k: int, data: Seq<u8>)
        requires
            self.wf(),
            self.holds_data(),
            chain.no_duplicates(),
            0 <= k,
            k + data.len() <= self.capacity(chain),
            self.stored(image, chain, k, data).1 is Ok,
        ensures
            self.stored(image, chain, k, data).0.len() == image.len(),
            forall|i: int|
                0 <= i < data.len() ==> #[trigger] self.byte_readable(
                    self.stored(image, chain, k, data).0,
                    chain,
                    k + i,
                ) && self.stored(image, chain, k, data).0[self.data_pos(chain, k + i)] == data[i],
            forall|p: int|
                0 <= p < image.len() && (forall|i: int|
                    0 <= i < data.len() ==> #[trigger] self.data_pos(chain, k + i) != p)
                    ==> #[trigger] self.stored(image, chain, k, data).0[p] == image[p],
        decreases data.len(),
    {
        self.lemma_bounds();
        let size = self.cluster_size();
        if data.len() > 0 {
            self.lemma_data_pos(chain, k);
            let index = k / size;
            let within = k % size;
            let piece = if data.len() <= size - within {
                data.len() as int
            } else {
                size - within
            };
            let cluster = chain[index];
            let start = self.cluster_offset(cluster) + within;
            let first = patched(image, start, data.take(piece));
            let rest = data.skip(piece);
            let after = self.stored(first, chain, k + piece, rest);
            assert(self.stored(image, chain, k, data) == after);
            assert((index + 1) * size == index * size + size) by (nonlinear_arith);
            assert((index + 1) * size <= chain.len() * size) by (nonlinear_arith)
                requires
                    index + 1 <= chain.len(),
                    size > 0,
            ;
            self.lemma_stored(first, chain, k + piece, rest);
            // Where the bytes of the first piece lie.
            assert forall|i: int| 0 <= i < piece implies #[trigger] self.data_pos(chain, k + i)
                == start + i && (k + i) / size == index by {
                self.lemma_byte_index(index, within + i);
            }
            assert forall|i: int| 0 <= i < data.len() implies #[trigger] self.byte_readable(
                after.0,
                chain,
                k + i,
            ) && after.0[self.data_pos(chain, k + i)] == data[i] by {
                if i < piece {
                    let p = self.data_pos(chain, k + i);
                    assert(p == start + i);
                    assert forall|j: int| 0 <= j < rest.len() implies #[trigger] self.data_pos(
                        chain,
                        k + piece + j,
                    ) != p by {
                        self.lemma_data_pos_injective(chain, k + i, k + piece + j);
                    }
                    assert(after.0[p] == first[p]);
                    assert(first[p] == data.take(piece)[i]);
                } else {
                    let j = i - piece;
                    assert(self.byte_readable(after.0, chain, k + piece + j));
                    assert(rest[j] == data[i]);
                }
            }
            assert forall|p: int|
                0 <= p < image.len() && (forall|i: int|
                    0 <= i < data.len() ==> #[trigger] self.data_pos(chain, k + i)
                        != p) implies #[trigger] after.0[p] == image[p] by {
                assert forall|j: int| 0 <= j < rest.len() implies #[trigger] self.data_pos(
                    chain,
                    k + piece + j,
                ) != p by {
                    assert(self.data_pos(chain, k + (piece + j)) != p);
                }
                assert(after.0[p] == first[p]);
                if start <= p < start + piece {
                    assert(self.data_pos(chain, k + (p - start)) == start + (p - start));
                }
            }
        }
    }

    /// The clusters that a number of bytes needs have room for them.
    pub proof fn lemma_clusters_for(&self, bytes: int)
        requires
            self.wf(),
            self.holds_data(),
            0 <= bytes,
        ensures
            bytes <= self.clusters_for(bytes) * self.cluster_size(),
            0 <= self.clusters_for(bytes),
    {
        self.lemma_bounds();
        let size = self.cluster_size();
        let padded = bytes + size - 1;
        lemma_fundamental_div_mod(padded, size);
        lemma_mod_bound(padded, size);
        lemma_div_pos_is_pos(padded, size);
        assert(size * (padded / size) == (padded / size) * size) by (nonlinear_arith);
    }

    /// What is written through a chain is what a read of the same span
    /// returns, at any offset and across cluster boundaries.
    ///
    /// The law speaks of a chain without repeated clusters whose clusters
    /// are marked as in use, so that the allocator hands out none of them
    /// again, of a volume whose cluster numbers stay below the end-of-chain
    /// marks, and of a write that succeeds.
    pub proof fn law_write_then_read(&self, image: Seq<u8>, chain: Seq<u32>, offset: int, data: Seq<u8>)
        requires
            self.wf(),
            self.holds_data(),
            self.total_clusters <= crate::fat32::MAX_CLUSTERS,
            0 <= offset,
            chain.no_duplicates(),
            self.all_in_use(image, chain),
            self.written(image, chain, offset, data).result is Ok,
        ensures
            self.file_data(
                self.written(image, chain, offset, data).image,
                self.written(image, chain, offset, data).chain,
                offset,
                data.len() as int,
            ) == Ok::<Seq<u8>, FsError>(data),
    {
        self.lemma_bounds();
        let size = self.cluster_size();
        let required = self.clusters_for(offset + data.len());
        let need = if required > chain.len() {
            (required - chain.len()) as nat
        } else {
            0
        };
        let growth = self.grown(image, chain, need);
        self.lemma_grown(image, chain, need);
        self.lemma_clusters_for(offset + data.len());
        assert(growth.chain.len() >= required);
        assert(required * size <= growth.chain.len() * size) by (nonlinear_arith)
            requires
                required <= growth.chain.len(),
                size > 0,
        ;
        self.lemma_stored(growth.image, growth.chain, offset, data);
        let after = self.written(image, chain, offset, data).image;
        let len = self.span_len(growth.chain, offset, data.len() as int);
        assert(len == data.len());
        assert forall|k: int| offset <= k < offset + len implies #[trigger] self.byte_readable(
            after,
            growth.chain,
            k,
        ) by {
            assert(self.byte_readable(after, growth.chain, offset + (k - offset)));
        }
        assert forall|i: int| 0 <= i < len implies self.span(after, growth.chain, offset, len)[i]
            == data[i] by {
            assert(self.byte_readable(after, growth.chain, offset + i));
        }
        assert(self.span(after, growth.chain, offset, len) =~= data);
    }

    /// A read that asks for more than the chain holds from the offset on
    /// brings back what the chain holds, and no error.
    ///
    /// The law speaks of a chain whose data from the offset on lies inside
    /// the image, in clusters numbered from 2.
    pub proof fn law_read_stops_at_the_end(
        &self,
        image: Seq<u8>,
        chain: Seq<u32>,
        offset: int,
        size: int,
    )
        requires
            self.wf(),
            self.holds_data(),
            0 <= offset <= self.capacity(chain),
            size >= self.capacity(chain) - offset,
            self.span_readable(image, chain, offset, self.capacity(chain) - offset),
        ensures
            self.file_data(image, chain, offset, size) == Ok::<Seq<u8>, FsError>(
                self.span(image, chain, offset, self.capacity(chain) - offset),
            ),
            self.file_data(image, chain, offset, size).unwrap().len() == self.capacity(chain)
                - offset,
    {
    }
}

} // verus!
