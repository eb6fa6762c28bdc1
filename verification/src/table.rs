//! The file allocation table: reading and writing its 32-bit entries,
//! following a cluster chain, finding a free cluster and freeing a chain.

use vstd::prelude::*;
use crate::error::FsError;
use crate::fat32::FAT32;
use crate::image::{in_bounds, patched, u32_at, u32_bytes, read_u32, write_u32};

verus! {

/// The bits of a FAT entry that carry meaning.
pub const FAT_MASK: u32 = 0x0FFF_FFFF;

/// The smallest FAT value that marks the end of a chain, and the value
/// written to mark one.
pub const END_OF_CHAIN: u32 = 0x0FFF_FFF8;

/// The first cluster number that the allocator considers.
pub const FIRST_DATA_CLUSTER: u32 = 2;

/// How far a chain has been followed: the clusters in order, and whether the
/// walk reached an end mark.
pub struct ChainWalk {
    pub clusters: Seq<u32>,
    pub complete: bool,
}

/// What a scan of the table for a free cluster comes to.
pub enum FreeScan {
    /// The first free cluster.
    Free(u32),
    /// No cluster in the scanned range is free.
    Full,
    /// An entry that had to be read lies outside the image.
    Unreadable,
}

/// The number of steps after which a chain in this image must have run into
/// itself: every cluster of a chain has its entry inside the image, and the
/// image has room for fewer than this many entries.
pub open spec fn chain_limit(image: Seq<u8>) -> nat {
    image.len() / 4 + 1
}

impl FAT32 {
    /// The byte offset of the FAT entry of `cluster`.
    pub open spec fn fat_pos(&self, cluster: u32) -> int {
        self.fat_offset + 4 * cluster
    }

    /// The FAT entry of `cluster` lies inside the image.
    pub open spec fn fat_readable(&self, image: Seq<u8>, cluster: u32) -> bool {
        in_bounds(image, self.fat_pos(cluster), 4)
    }

    /// The successor that the FAT records for `cluster`: the low 28 bits of
    /// its entry.
    pub open spec fn next_of(&self, image: Seq<u8>, cluster: u32) -> u32 {
        u32_at(image, self.fat_pos(cluster)) & FAT_MASK
    }

    /// The image after the FAT entry of `cluster` has been set to the low 28
    /// bits of `value`.
    pub open spec fn with_next(&self, image: Seq<u8>, cluster: u32, value: u32) -> Seq<u8> {
        patched(image, self.fat_pos(cluster), u32_bytes(value & FAT_MASK))
    }

    /// `cluster` is marked free in the FAT.
    pub open spec fn is_free(&self, image: Seq<u8>, cluster: u32) -> bool {
        self.fat_readable(image, cluster) && self.next_of(image, cluster) == 0
    }

    /// The chain that starts at `start`, followed for at most `fuel` links.
    /// The walk ends at a value of zero or an end mark; it breaks off where
    /// an entry lies outside the image or the fuel runs out.
    pub open spec fn chain_walk(&self, image: Seq<u8>, start: u32, fuel: nat) -> ChainWalk
        decreases fuel,
    {
        if start == 0 || start >= END_OF_CHAIN {
            ChainWalk { clusters: Seq::empty(), complete: true }
        } else if fuel == 0 || !self.fat_readable(image, start) {
            ChainWalk { clusters: Seq::empty(), complete: false }
        } else {
            let rest = self.chain_walk(image, self.next_of(image, start), (fuel - 1) as nat);
            ChainWalk { clusters: seq![start] + rest.clusters, complete: rest.complete }
        }
    }

    /// The cluster chain that starts at `start`, or an I/O error where it
    /// cannot be followed to its end.
    pub open spec fn chain_of(&self, image: Seq<u8>, start: u32) -> Result<Seq<u32>, FsError> {
        let walk = self.chain_walk(image, start, chain_limit(image));
        if walk.complete {
            Ok(walk.clusters)
        } else {
            Err(FsError::Io)
        }
    }

    /// The scan for a free cluster from `from` up to, but without,
    /// `total_clusters`: it stops at the first entry that is free or cannot
    /// be read.
    pub open spec fn free_scan(&self, image: Seq<u8>, from: u32) -> FreeScan
        decreases self.total_clusters - from,
    {
        if from >= self.total_clusters {
            FreeScan::Full
        } else if !self.fat_readable(image, from) {
            FreeScan::Unreadable
        } else if self.next_of(image, from) == 0 {
            FreeScan::Free(from)
        } else {
            self.free_scan(image, (from + 1) as u32)
        }
    }

    /// The image and the outcome after the chain from `start` has been
    /// freed link by link: each entry is read, then set to zero. The second
    /// part is `false` where an entry lay outside the image or the fuel ran
    /// out.
    pub open spec fn freed(&self, image: Seq<u8>, start: u32, fuel: nat) -> (Seq<u8>, bool)
        decreases fuel,
    {
        if start == 0 || start >= END_OF_CHAIN {
            (image, true)
        } else if fuel == 0 || !self.fat_readable(image, start) {
            (image, false)
        } else {
            self.freed(
                self.with_next(image, start, 0),
                self.next_of(image, start),
                (fuel - 1) as nat,
            )
        }
    }

    /// Setting one FAT entry changes that entry and nothing else.
    pub proof fn lemma_with_next(&self, image: Seq<u8>, cluster: u32, value: u32)
        requires
            self.fat_readable(image, cluster),
        ensures
            self.with_next(image, cluster, value).len() == image.len(),
            self.next_of(self.with_next(image, cluster, value), cluster) == value & FAT_MASK,
            forall|c: u32|
                c != cluster ==> #[trigger] self.next_of(
                    self.with_next(image, cluster, value),
                    c,
                ) == self.next_of(image, c) || !self.fat_readable(image, c),
            forall|c: u32| #[trigger]
                self.fat_readable(self.with_next(image, cluster, value), c) == self.fat_readable(
                    image,
                    c,
                ),
            forall|i: int|
                0 <= i < image.len() && !(self.fat_pos(cluster) <= i < self.fat_pos(cluster) + 4)
                    ==> #[trigger] self.with_next(image, cluster, value)[i] == image[i],
    {
        let v = value & FAT_MASK;
        assert(v & FAT_MASK == v) by (bit_vector)
            requires
                v == value & FAT_MASK,
        ;
        crate::image::lemma_u32_round_trip(v);
        let after = self.with_next(image, cluster, value);
        let p = self.fat_pos(cluster);
        assert(after[p] == u32_bytes(v)[0]);
        assert(after[p + 1] == u32_bytes(v)[1]);
        assert(after[p + 2] == u32_bytes(v)[2]);
        assert(after[p + 3] == u32_bytes(v)[3]);
        assert(u32_at(after, p) == v);
        assert forall|c: u32| c != cluster implies #[trigger] self.next_of(after, c)
            == self.next_of(image, c) || !self.fat_readable(image, c) by {
            if self.fat_readable(image, c) {
                let q = self.fat_pos(c);
                assert(after[q] == image[q]);
                assert(after[q + 1] == image[q + 1]);
                assert(after[q + 2] == image[q + 2]);
                assert(after[q + 3] == image[q + 3]);
            }
        }
    }

    /// A free cluster that the scan finds is the first one: it lies in the
    /// scanned range, its entry can be read and is zero, and every cluster
    /// before it is in use. A scan that finds the table full saw every
    /// cluster in use.
    pub proof fn lemma_free_scan(&self, image: Seq<u8>, from: u32)
        ensures
            match self.free_scan(image, from) {
                FreeScan::Free(c) => {
                    &&& from <= c < self.total_clusters
                    &&& self.is_free(image, c)
                    &&& forall|b: u32| from <= b < c ==> !self.is_free(image, b)
                },
                FreeScan::Full => forall|b: u32|
                    from <= b < self.total_clusters ==> !self.is_free(image, b),
                FreeScan::Unreadable => true,
            },
        decreases self.total_clusters - from,
    {
        if from < self.total_clusters && self.fat_readable(image, from) && self.next_of(
            image,
            from,
        ) != 0 {
            self.lemma_free_scan(image, (from + 1) as u32);
        }
    }

    /// Reads the successor of `cluster` from the FAT.
    pub fn get_next_cluster(&self, image: &[u8], cluster: u32) -> (r: Result<u32, FsError>)
        requires
            self.wf(),
        ensures
            self.fat_readable(image@, cluster) ==> r == Ok::<u32, FsError>(
                self.next_of(image@, cluster),
            ),
            !self.fat_readable(image@, cluster) ==> r == Err::<u32, FsError>(FsError::Io),
    {
        proof {
            self.lemma_bounds();
        }
        let pos = self.fat_offset + 4 * (cluster as u64);
        let raw = read_u32(image, pos)?;
        Ok(raw & FAT_MASK)
    }

    /// Writes the low 28 bits of `next_cluster` into the FAT entry of
    /// `cluster`; the high four bits of the entry become zero.
    pub fn set_next_cluster(&self, image: &mut Vec<u8>, cluster: u32, next_cluster: u32) -> (r:
        Result<(), FsError>)
        requires
            self.wf(),
        ensures
            self.fat_readable(old(image)@, cluster) ==> r == Ok::<(), FsError>(()) && final(image)@
                == self.with_next(old(image)@, cluster, next_cluster),
            !self.fat_readable(old(image)@, cluster) ==> r == Err::<(), FsError>(FsError::Io)
                && final(image)@ == old(image)@,
    {
        proof {
            self.lemma_bounds();
        }
        let pos = self.fat_offset + 4 * (cluster as u64);
        write_u32(image, pos, next_cluster & FAT_MASK)
    }

    /// Follows the chain from `start_cluster` and returns its clusters in
    /// order. A start of zero, or at an end mark, gives the empty chain. A
    /// chain that the FAT links from `start_cluster` to an end mark without
    /// coming by a cluster twice is returned as it is.
    pub fn get_cluster_chain(&self, image: &[u8], start_cluster: u32) -> (r: Result<
        Vec<u32>,
        FsError,
    >)
        requires
            self.wf(),
        ensures
            match self.chain_of(image@, start_cluster) {
                Ok(chain) => r.is_ok() && r.unwrap()@ == chain,
                Err(e) => r == Err::<Vec<u32>, FsError>(e),
            },
            forall|chain: Seq<u32>|
                #[trigger] self.linked(image@, chain) && chain.no_duplicates() && chain[0]
                    == start_cluster ==> r.is_ok() && r.unwrap()@ == chain,
    {
        proof {
            assert forall|chain: Seq<u32>|
                #[trigger] self.linked(image@, chain) && chain.no_duplicates() && chain[0]
                    == start_cluster implies self.chain_of(image@, start_cluster) == Ok::<
                Seq<u32>,
                FsError,
            >(chain) by {
                self.lemma_linked_fits(image@, chain);
                self.lemma_linked_chain_walk(image@, chain, chain_limit(image@));
            }
        }
        let mut chain: Vec<u32> = Vec::new();
        let mut cluster = start_cluster;
        let mut fuel: usize = image.len() / 4 + 1;
        let ghost whole = self.chain_walk(image@, start_cluster, chain_limit(image@));
        while cluster < END_OF_CHAIN && cluster != 0
            invariant
                self.wf(),
                whole == self.chain_walk(image@, start_cluster, chain_limit(image@)),
                forall|chain: Seq<u32>|
                    #[trigger] self.linked(image@, chain) && chain.no_duplicates() && chain[0]
                        == start_cluster ==> self.chain_of(image@, start_cluster) == Ok::<
                        Seq<u32>,
                        FsError,
                    >(chain),
                whole.clusters == chain@ + self.chain_walk(image@, cluster, fuel as nat).clusters,
                whole.complete == self.chain_walk(image@, cluster, fuel as nat).complete,
            decreases fuel,
        {
            if fuel == 0 {
                return Err(FsError::Io);
            }
            let next = self.get_next_cluster(image, cluster)?;
            proof {
                let rest = self.chain_walk(image@, next, (fuel - 1) as nat);
                assert(chain@ + (seq![cluster] + rest.clusters) =~= chain@.push(cluster)
                    + rest.clusters);
            }
            chain.push(cluster);
            cluster = next;
            fuel -= 1;
        }
        proof {
            assert(chain@ + Seq::<u32>::empty() =~= chain@);
        }
        Ok(chain)
    }

    /// Finds the first free cluster among `2..total_clusters` and marks it
    /// as the end of a chain.
    pub fn allocate_cluster(&self, image: &mut Vec<u8>) -> (r: Result<u32, FsError>)
        requires
            self.wf(),
        ensures
            match self.free_scan(old(image)@, FIRST_DATA_CLUSTER) {
                FreeScan::Free(c) => r == Ok::<u32, FsError>(c) && final(image)@ == self.with_next(
                    old(image)@,
                    c,
                    END_OF_CHAIN,
                ),
                FreeScan::Full => r == Err::<u32, FsError>(FsError::NoSpace) && final(image)@
                    == old(image)@,
                FreeScan::Unreadable => r == Err::<u32, FsError>(FsError::Io) && final(image)@
                    == old(image)@,
            },
    {
        let mut cluster: u32 = FIRST_DATA_CLUSTER;
        while cluster < self.total_clusters
            invariant
                self.wf(),
                image@ == old(image)@,
                cluster >= FIRST_DATA_CLUSTER,
                self.free_scan(old(image)@, FIRST_DATA_CLUSTER) == self.free_scan(
                    old(image)@,
                    cluster,
                ),
            decreases self.total_clusters - cluster,
        {
            let next_cluster = self.get_next_cluster(image.as_slice(), cluster)?;
            if next_cluster == 0 {
                self.set_next_cluster(image, cluster, END_OF_CHAIN)?;
                return Ok(cluster);
            }
            cluster += 1;
        }
        Err(FsError::NoSpace)
    }

    /// Frees the chain that starts at `start_cluster`: for each cluster its
    /// successor is read first, then its entry is set to zero. Of a chain
    /// that the FAT links from `start_cluster` to an end mark without coming
    /// by a cluster twice, every entry is set to zero and nothing else is
    /// changed.
    pub fn free_cluster_chain(&self, image: &mut Vec<u8>, start_cluster: u32) -> (r: Result<
        (),
        FsError,
    >)
        requires
            self.wf(),
        ensures
            final(image)@ == self.freed(old(image)@, start_cluster, chain_limit(old(image)@)).0,
            self.freed(old(image)@, start_cluster, chain_limit(old(image)@)).1 ==> r == Ok::<
                (),
                FsError,
            >(()),
            !self.freed(old(image)@, start_cluster, chain_limit(old(image)@)).1 ==> r == Err::<
                (),
                FsError,
            >(FsError::Io),
            forall|chain: Seq<u32>|
                #[trigger] self.linked(old(image)@, chain) && chain.no_duplicates() && chain[0]
                    == start_cluster ==> r == Ok::<(), FsError>(()) && final(image)@
                    == self.released(old(image)@, chain),
    {
        proof {
            assert forall|chain: Seq<u32>|
                #[trigger] self.linked(old(image)@, chain) && chain.no_duplicates() && chain[0]
                    == start_cluster implies self.freed(
                old(image)@,
                start_cluster,
                chain_limit(old(image)@),
            ) == (self.released(old(image)@, chain), true) by {
                self.lemma_linked_fits(old(image)@, chain);
                self.lemma_freed_linked(old(image)@, chain, chain_limit(old(image)@));
            }
        }
        let mut cluster = start_cluster;
        let mut fuel: usize = image.len() / 4 + 1;
        let ghost whole = self.freed(old(image)@, start_cluster, chain_limit(old(image)@));
        while cluster < END_OF_CHAIN && cluster != 0
            invariant
                self.wf(),
                whole == self.freed(old(image)@, start_cluster, chain_limit(old(image)@)),
                forall|chain: Seq<u32>|
                    #[trigger] self.linked(old(image)@, chain) && chain.no_duplicates() && chain[0]
                        == start_cluster ==> whole == (self.released(old(image)@, chain), true),
                whole == self.freed(image@, cluster, fuel as nat),
            decreases fuel,
        {
            if fuel == 0 {
                return Err(FsError::Io);
            }
            let next_cluster = self.get_next_cluster(image.as_slice(), cluster)?;
            self.set_next_cluster(image, cluster, 0)?;
            cluster = next_cluster;
            fuel -= 1;
        }
        Ok(())
    }
}

} // verus!
