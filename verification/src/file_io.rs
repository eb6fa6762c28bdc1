//! File data: reading a span of bytes through a cluster chain and writing
//! one, growing the chain where the data needs more clusters.

use vstd::prelude::*;
use vstd::arithmetic::div_mod::{lemma_fundamental_div_mod, lemma_fundamental_div_mod_converse};
use crate::error::FsError;
use crate::fat32::FAT32;
use crate::image::{in_bounds, patched, lemma_mul_bound, read_slice, write_slice};
use crate::table::{FreeScan, END_OF_CHAIN, FIRST_DATA_CLUSTER};

verus! {

/// An image and a chain together with the outcome of the operation that left
/// them.
pub struct Growth {
    pub image: Seq<u8>,
    pub chain: Seq<u32>,
    pub result: Result<(), FsError>,
}

impl FAT32 {
    /// The offset in the image of byte `k` of the data that a chain holds.
    pub open spec fn data_pos(&self, chain: Seq<u32>, k: int) -> int {
        self.cluster_offset(chain[k / self.cluster_size()]) + k % self.cluster_size()
    }

    /// Byte `k` of the chain's data lies in a data cluster and inside the
    /// image.
    pub open spec fn byte_readable(&self, image: Seq<u8>, chain: Seq<u32>, k: int) -> bool {
        chain[k / self.cluster_size()] >= 2 && self.data_pos(chain, k) < image.len()
    }

    /// The number of bytes that the chain has room for.
    pub open spec fn capacity(&self, chain: Seq<u32>) -> int {
        chain.len() * self.cluster_size()
    }

    /// The number of bytes that a read of `size` bytes at `offset` delivers:
    /// all of them, or as many as the chain holds from there on.
    pub open spec fn span_len(&self, chain: Seq<u32>, offset: int, size: int) -> int {
        if offset >= self.capacity(chain) {
            0
        } else if size <= self.capacity(chain) - offset {
            size
        } else {
            self.capacity(chain) - offset
        }
    }

    /// Every byte of the span can be read.
    pub open spec fn span_readable(
        &self,
        image: Seq<u8>,
        chain: Seq<u32>,
        offset: int,
        len: int,
    ) -> bool {
        forall|k: int| offset <= k < offset + len ==> #[trigger] self.byte_readable(image, chain, k)
    }

    /// The `len` bytes of the chain's data that start at `offset`.
    pub open spec fn span(&self, image: Seq<u8>, chain: Seq<u32>, offset: int, len: int) -> Seq<
        u8,
    > {
        Seq::new(len as nat, |i: int| image[self.data_pos(chain, offset + i)])
    }

    /// What a read of `size` bytes at `offset` through `chain` returns: the
    /// bytes that exist, without padding, or an I/O error where one of them
    /// lies outside the image or in a cluster numbered below 2.
    pub open spec fn file_data(
        &self,
        image: Seq<u8>,
        chain: Seq<u32>,
        offset: int,
        size: int,
    ) -> Result<Seq<u8>, FsError> {
        let len = self.span_len(chain, offset, size);
        if self.span_readable(image, chain, offset, len) {
            Ok(self.span(image, chain, offset, len))
        } else {
            Err(FsError::Io)
        }
    }

    /// The number of clusters that `bytes` bytes of data need.
    pub open spec fn clusters_for(&self, bytes: int) -> int {
        (bytes + self.cluster_size() - 1) / self.cluster_size()
    }

    /// The image, the chain and the outcome after the chain has been grown
    /// by `need` clusters. Each new cluster is allocated and marked as the
    /// end of a chain first; then the old tail, if there is one, is linked
    /// to it.
    pub open spec fn grown(&self, image: Seq<u8>, chain: Seq<u32>, need: nat) -> Growth
        decreases need,
    {
        if need == 0 {
            Growth { image, chain, result: Ok(()) }
        } else {
            match self.free_scan(image, FIRST_DATA_CLUSTER) {
                FreeScan::Full => Growth { image, chain, result: Err(FsError::NoSpace) },
                FreeScan::Unreadable => Growth { image, chain, result: Err(FsError::Io) },
                FreeScan::Free(fresh) => {
                    let marked = self.with_next(image, fresh, END_OF_CHAIN);
                    if chain.len() == 0 {
                        self.grown(marked, chain.push(fresh), (need - 1) as nat)
                    } else if !self.fat_readable(marked, chain.last()) {
                        Growth { image: marked, chain, result: Err(FsError::Io) }
                    } else {
                        self.grown(
                            self.with_next(marked, chain.last(), fresh),
                            chain.push(fresh),
                            (need - 1) as nat,
                        )
                    }
                },
            }
        }
    }

    /// The image and the outcome after `data` has been written through the
    /// chain from byte `k` of its data on, cluster by cluster. The write
    /// stops with an I/O error at the first piece that lies outside the
    /// image or in a cluster numbered below 2; pieces before it stay
    /// written. Data beyond the end of the chain is not written.
    pub open spec fn stored(&self, image: Seq<u8>, chain: Seq<u32>, k: int, data: Seq<u8>) -> (
        Seq<u8>,
        Result<(), FsError>,
    )
        decreases data.len(),
    {
        let size = self.cluster_size();
        let index = k / size;
        let within = k % size;
        let piece = if data.len() <= size - within {
            data.len() as int
        } else {
            size - within
        };
        if data.len() == 0 || index >= chain.len() || size <= 0 || k < 0 {
            (image, Ok(()))
        } else if chain[index] < 2 || !in_bounds(
            image,
            self.cluster_offset(chain[index]) + within,
            piece,
        ) {
            (image, Err(FsError::Io))
        } else {
            self.stored(
                patched(image, self.cluster_offset(chain[index]) + within, data.take(piece)),
                chain,
                k + piece,
                data.skip(piece),
            )
        }
    }

    /// The image, the chain and the outcome of a write of `data` at
    /// `offset`: the chain is grown to the clusters that `offset` and the
    /// data need, then the data is stored.
    pub open spec fn written(&self, image: Seq<u8>, chain: Seq<u32>, offset: int, data: Seq<u8>) -> Growth {
        let required = self.clusters_for(offset + data.len());
        let need = if required > chain.len() {
            (required - chain.len()) as nat
        } else {
            0
        };
        let growth = self.grown(image, chain, need);
        if growth.result.is_ok() {
            let (after, result) = self.stored(growth.image, growth.chain, offset, data);
            Growth { image: after, chain: growth.chain, result }
        } else {
            growth
        }
    }

    /// A byte that lies `within` bytes into cluster `index` of a chain's
    /// data has that index and that remainder.
    pub proof fn lemma_byte_index(&self, index: int, within: int)
        requires
            self.wf(),
            self.holds_data(),
            0 <= index,
            0 <= within < self.cluster_size(),
        ensures
            (index * self.cluster_size() + within) / self.cluster_size() == index,
            (index * self.cluster_size() + within) % self.cluster_size() == within,
    {
        self.lemma_bounds();
        lemma_fundamental_div_mod_converse(
            index * self.cluster_size() + within,
            self.cluster_size(),
            index,
            within,
        );
    }

    /// Reads up to `size` bytes at `offset` through a cluster chain. The
    /// read is short where the chain ends first.
    pub fn read_file_data(&self, image: &[u8], cluster_chain: &[u32], offset: u32, size: u32) -> (r:
        Result<Vec<u8>, FsError>)
        requires
            self.wf(),
            self.holds_data(),
        ensures
            match self.file_data(image@, cluster_chain@, offset as int, size as int) {
                Ok(bytes) => r.is_ok() && r.unwrap()@ == bytes,
                Err(e) => r == Err::<Vec<u8>, FsError>(e),
            },
    {
        proof {
            self.lemma_bounds();
        }
        let mut data: Vec<u8> = Vec::new();
        let bytes_per_cluster = self.bytes_per_cluster();
        let mut remaining_size = size;
        let mut cluster_index: usize = (offset / bytes_per_cluster) as usize;
        let mut cluster_offset: u32 = offset % bytes_per_cluster;
        let ghost chain = cluster_chain@;
        let ghost len = self.span_len(chain, offset as int, size as int);
        proof {
            lemma_fundamental_div_mod(offset as int, bytes_per_cluster as int);
            assert(bytes_per_cluster * (offset / bytes_per_cluster) == (offset / bytes_per_cluster)
                * bytes_per_cluster) by (nonlinear_arith);
            assert(data@ =~= self.span(image@, chain, offset as int, 0));
        }
        while remaining_size > 0 && cluster_index < cluster_chain.len()
            invariant
                self.wf(),
                chain == cluster_chain@,
                bytes_per_cluster == self.cluster_size(),
                0 < bytes_per_cluster <= 0xFFFF * 0xFF,
                cluster_offset < bytes_per_cluster,
                len == self.span_len(chain, offset as int, size as int),
                data@.len() + remaining_size == size,
                remaining_size > 0 ==> offset + data@.len() == cluster_index * bytes_per_cluster
                    + cluster_offset,
                data@.len() <= len,
                self.span_readable(image@, chain, offset as int, data@.len() as int),
                data@ == self.span(image@, chain, offset as int, data@.len() as int),
            decreases remaining_size,
        {
            let ghost k = offset as int + data@.len();
            let ghost done = data@;
            proof {
                self.lemma_bounds();
                self.lemma_byte_index(cluster_index as int, cluster_offset as int);
                assert((cluster_index + 1) * bytes_per_cluster == cluster_index * bytes_per_cluster
                    + bytes_per_cluster) by (nonlinear_arith);
                assert((cluster_index + 1) * bytes_per_cluster <= chain.len() * bytes_per_cluster)
                    by (nonlinear_arith)
                    requires
                        cluster_index + 1 <= chain.len(),
                        bytes_per_cluster > 0,
                ;
            }
            let cluster = cluster_chain[cluster_index];
            if cluster < 2 {
                assert(!self.byte_readable(image@, chain, k));
                return Err(FsError::Io);
            }
            let cluster_start = self.cluster_to_offset(cluster);
            let room = bytes_per_cluster - cluster_offset;
            let to_read: u32 = if remaining_size < room {
                remaining_size
            } else {
                room
            };
            let found = read_slice(image, cluster_start + cluster_offset as u64, to_read as usize);
            proof {
                assert forall|j: int| 0 <= j < to_read implies (k + j) / (bytes_per_cluster as int)
                    == cluster_index && #[trigger] self.data_pos(chain, k + j) == cluster_start
                    + cluster_offset + j by {
                    self.lemma_byte_index(cluster_index as int, cluster_offset + j);
                }
            }
            if found.is_err() {
                proof {
                    let last = to_read - 1;
                    self.lemma_byte_index(cluster_index as int, cluster_offset + last);
                    assert(self.data_pos(chain, k + last) == cluster_start + cluster_offset + last);
                    assert(!self.byte_readable(image@, chain, k + last));
                }
                return Err(FsError::Io);
            }
            let chunk = found.unwrap();
            data.extend_from_slice(chunk);
            proof {
                assert forall|m: int|
                    offset <= m < offset + data@.len() implies #[trigger] self.byte_readable(
                    image@,
                    chain,
                    m,
                ) by {
                    if m >= k {
                        assert(self.data_pos(chain, k + (m - k)) == cluster_start + cluster_offset
                            + (m - k));
                    }
                }
                assert forall|i: int| 0 <= i < data@.len() implies data@[i] == image@[self.data_pos(
                    chain,
                    offset + i,
                )] by {
                    if i >= done.len() {
                        let j = i - done.len();
                        assert(self.data_pos(chain, k + j) == cluster_start + cluster_offset + j);
                        assert(data@[i] == chunk@[j]);
                    } else {
                        assert(data@[i] == done[i]);
                    }
                }
                assert(data@ =~= self.span(image@, chain, offset as int, data@.len() as int));
            }
            remaining_size -= to_read;
            cluster_offset = 0;
            cluster_index += 1;
        }
        proof {
            if remaining_size > 0 {
                assert(cluster_index * bytes_per_cluster >= chain.len() * bytes_per_cluster)
                    by (nonlinear_arith)
                    requires
                        cluster_index >= chain.len(),
                        bytes_per_cluster > 0,
                ;
            }
        }
        Ok(data)
    }

    /// Grows the chain until it has `required` clusters.
    fn grow_chain(&self, image: &mut Vec<u8>, cluster_chain: &mut Vec<u32>, required: u64) -> (r:
        Result<(), FsError>)
        requires
            self.wf(),
        ensures
            final(image)@ == self.grown(
                old(image)@,
                old(cluster_chain)@,
                if required > old(cluster_chain)@.len() {
                    (required - old(cluster_chain)@.len()) as nat
                } else {
                    0
                },
            ).image,
            final(cluster_chain)@ == self.grown(
                old(image)@,
                old(cluster_chain)@,
                if required > old(cluster_chain)@.len() {
                    (required - old(cluster_chain)@.len()) as nat
                } else {
                    0
                },
            ).chain,
            r == self.grown(
                old(image)@,
                old(cluster_chain)@,
                if required > old(cluster_chain)@.len() {
                    (required - old(cluster_chain)@.len()) as nat
                } else {
                    0
                },
            ).result,
    {
        let ghost whole = self.grown(
            old(image)@,
            old(cluster_chain)@,
            if required > old(cluster_chain)@.len() {
                (required - old(cluster_chain)@.len()) as nat
            } else {
                0
            },
        );
        while (cluster_chain.len() as u64) < required
            invariant
                self.wf(),
                whole == self.grown(
                    old(image)@,
                    old(cluster_chain)@,
                    if required > old(cluster_chain)@.len() {
                        (required - old(cluster_chain)@.len()) as nat
                    } else {
                        0
                    },
                ),
                whole == self.grown(
                    image@,
                    cluster_chain@,
                    if required > cluster_chain@.len() {
                        (required - cluster_chain@.len()) as nat
                    } else {
                        0
                    },
                ),
            decreases required - cluster_chain@.len(),
        {
            let new_cluster = self.allocate_cluster(image)?;
            if cluster_chain.len() > 0 {
                let last_cluster = cluster_chain[cluster_chain.len() - 1];
                self.set_next_cluster(image, last_cluster, new_cluster)?;
            }
            cluster_chain.push(new_cluster);
        }
        Ok(())
    }

    /// Stores `data` through the chain from `offset` on, cluster by cluster.
    fn store_data(&self, image: &mut Vec<u8>, cluster_chain: &[u32], offset: u32, data: &[u8]) -> (r:
        Result<(), FsError>)
        requires
            self.wf(),
            self.holds_data(),
            offset + data@.len() <= u32::MAX,
        ensures
            final(image)@ == self.stored(old(image)@, cluster_chain@, offset as int, data@).0,
            r == self.stored(old(image)@, cluster_chain@, offset as int, data@).1,
    {
        proof {
            self.lemma_bounds();
        }
        let bytes_per_cluster = self.bytes_per_cluster();
        let total = data.len();
        let mut data_offset: usize = 0;
        let mut cluster_index: usize = (offset / bytes_per_cluster) as usize;
        let mut cluster_offset: u32 = offset % bytes_per_cluster;
        let ghost chain = cluster_chain@;
        let ghost whole = self.stored(old(image)@, chain, offset as int, data@);
        proof {
            lemma_fundamental_div_mod(offset as int, bytes_per_cluster as int);
            assert(bytes_per_cluster * (offset / bytes_per_cluster) == (offset / bytes_per_cluster)
                * bytes_per_cluster) by (nonlinear_arith);
            assert(data@.skip(0) =~= data@);
        }
        while data_offset < total && cluster_index < cluster_chain.len()
            invariant
                self.wf(),
                chain == cluster_chain@,
                total == data@.len(),
                offset + total <= u32::MAX,
                bytes_per_cluster == self.cluster_size(),
                0 < bytes_per_cluster <= 0xFFFF * 0xFF,
                cluster_offset < bytes_per_cluster,
                data_offset <= total,
                data_offset < total ==> offset + data_offset == cluster_index * bytes_per_cluster
                    + cluster_offset,
                whole == self.stored(old(image)@, chain, offset as int, data@),
                whole == self.stored(
                    image@,
                    chain,
                    offset as int + data_offset,
                    data@.skip(data_offset as int),
                ),
            decreases total - data_offset,
        {
            let ghost rest = data@.skip(data_offset as int);
            proof {
                self.lemma_bounds();
                self.lemma_byte_index(cluster_index as int, cluster_offset as int);
                assert((cluster_index + 1) * bytes_per_cluster == cluster_index * bytes_per_cluster
                    + bytes_per_cluster) by (nonlinear_arith);
            }
            let cluster = cluster_chain[cluster_index];
            if cluster < 2 {
                return Err(FsError::Io);
            }
            let cluster_start = self.cluster_to_offset(cluster);
            let room = (bytes_per_cluster - cluster_offset) as usize;
            let to_write: usize = if total - data_offset < room {
                total - data_offset
            } else {
                room
            };
            let piece = vstd::slice::slice_subrange(data, data_offset, data_offset + to_write);
            proof {
                assert(piece@ =~= rest.take(to_write as int));
                assert(rest.skip(to_write as int) =~= data@.skip(data_offset + to_write));
            }
            write_slice(image, cluster_start + cluster_offset as u64, piece)?;
            data_offset += to_write;
            cluster_offset = 0;
            cluster_index += 1;
        }
        proof {
            if data_offset < total {
                assert(cluster_index * bytes_per_cluster >= chain.len() * bytes_per_cluster)
                    by (nonlinear_arith)
                    requires
                        cluster_index >= chain.len(),
                        bytes_per_cluster > 0,
                ;
                self.lemma_byte_index(cluster_index as int, cluster_offset as int);
            } else {
                assert(data@.skip(data_offset as int).len() == 0);
            }
        }
        Ok(())
    }

    /// Writes `data` at `offset` through a cluster chain. Where the chain is
    /// too short for `offset` and the data, it is grown first: each new
    /// cluster is allocated and marked before the old tail is linked to it,
    /// and the clusters are added to `cluster_chain`.
    pub fn write_file_data(
        &self,
        image: &mut Vec<u8>,
        cluster_chain: &mut Vec<u32>,
        offset: u32,
        data: &[u8],
    ) -> (r: Result<(), FsError>)
        requires
            self.wf(),
            self.holds_data(),
            offset + data@.len() <= u32::MAX,
        ensures
            final(image)@ == self.written(
                old(image)@,
                old(cluster_chain)@,
                offset as int,
                data@,
            ).image,
            final(cluster_chain)@ == self.written(
                old(image)@,
                old(cluster_chain)@,
                offset as int,
                data@,
            ).chain,
            r == self.written(old(image)@, old(cluster_chain)@, offset as int, data@).result,
    {
        proof {
            self.lemma_bounds();
        }
        let bytes_per_cluster = self.bytes_per_cluster() as u64;
        let required_size = offset as u64 + data.len() as u64;
        let required_clusters = (required_size + bytes_per_cluster - 1) / bytes_per_cluster;
        self.grow_chain(image, cluster_chain, required_clusters)?;
        self.store_data(image, cluster_chain.as_slice(), offset, data)
    }
}

} // verus!
