//! Cluster chains as the FAT links them: what it means that a run of
//! clusters is a chain, and how the walks of the engine, an allocation and a
//! release act on one.

use vstd::prelude::*;
use crate::fat32::FAT32;
use crate::frame::agree;
use crate::table::{chain_limit, ChainWalk, END_OF_CHAIN, FAT_MASK};

verus! {

/// A sequence of different numbers below a bound is no longer than the
/// bound.
pub proof fn lemma_distinct_bounded(s: Seq<u32>, bound: int)
    requires
        s.no_duplicates(),
        forall|i: int| 0 <= i < s.len() ==> (#[trigger] s[i]) < bound,
    ensures
        s.len() <= bound || s.len() == 0,
    decreases bound,
{
    if s.len() > 0 {
        if bound <= 0 {
            assert(s[0] < bound);
        } else if exists|k: int| 0 <= k < s.len() && s[k] == bound - 1 {
            let k = choose|k: int| 0 <= k < s.len() && s[k] == bound - 1;
            let rest = s.remove(k);
            assert forall|i: int| 0 <= i < rest.len() implies (#[trigger] rest[i]) < bound - 1 by {
                if i < k {
                    assert(rest[i] == s[i]);
                    assert(s[i] != s[k]);
                } else {
                    assert(rest[i] == s[i + 1]);
                    assert(s[i + 1] != s[k]);
                }
            }
            assert(rest.no_duplicates()) by {
                assert forall|i: int, j: int|
                    0 <= i < rest.len() && 0 <= j < rest.len() && i != j implies rest[i]
                    != rest[j] by {
                    let a = if i < k {
                        i
                    } else {
                        i + 1
                    };
                    let b = if j < k {
                        j
                    } else {
                        j + 1
                    };
                    assert(rest[i] == s[a]);
                    assert(rest[j] == s[b]);
                }
            }
            lemma_distinct_bounded(rest, bound - 1);
        } else {
            assert forall|i: int| 0 <= i < s.len() implies (#[trigger] s[i]) < bound - 1 by {
                assert(s[i] < bound);
            }
            lemma_distinct_bounded(s, bound - 1);
        }
    }
}

impl FAT32 {
    /// `chain` is a chain of the FAT: it is not empty, its clusters are data
    /// clusters whose entries can be read, each entry names the next
    /// cluster, and the last one holds an end mark.
    pub open spec fn linked(&self, image: Seq<u8>, chain: Seq<u32>) -> bool {
        &&& chain.len() > 0
        &&& forall|i: int|
            0 <= i < chain.len() ==> 2 <= #[trigger] chain[i] < END_OF_CHAIN && self.fat_readable(
                image,
                chain[i],
            )
        &&& forall|i: int|
            0 <= i < chain.len() - 1 ==> self.next_of(image, #[trigger] chain[i]) == chain[i + 1]
        &&& self.next_of(image, chain.last()) >= END_OF_CHAIN
    }

    /// The part of a chain behind its first cluster is a chain.
    pub proof fn lemma_linked_rest(&self, image: Seq<u8>, chain: Seq<u32>)
        requires
            self.linked(image, chain),
            chain.len() > 1,
        ensures
            self.linked(image, chain.skip(1)),
            chain.skip(1)[0] == self.next_of(image, chain[0]),
    {
        let rest = chain.skip(1);
        assert forall|i: int| 0 <= i < rest.len() implies 2 <= #[trigger] rest[i] < END_OF_CHAIN
            && self.fat_readable(image, rest[i]) by {
            assert(rest[i] == chain[i + 1]);
        }
        assert forall|i: int| 0 <= i < rest.len() - 1 implies self.next_of(
            image,
            #[trigger] rest[i],
        ) == rest[i + 1] by {
            assert(rest[i] == chain[i + 1]);
            assert(rest[i + 1] == chain[i + 2]);
        }
        assert(rest.last() == chain.last());
    }

    /// The walk of a file's chain from the first cluster of a chain of the
    /// FAT gives that chain.
    pub proof fn lemma_linked_chain_walk(&self, image: Seq<u8>, chain: Seq<u32>, fuel: nat)
        requires
            self.linked(image, chain),
            fuel >= chain.len(),
        ensures
            self.chain_walk(image, chain[0], fuel) == (ChainWalk { clusters: chain, complete: true }),
        decreases chain.len(),
    {
        let start = chain[0];
        if chain.len() == 1 {
            assert(chain.last() == start);
            assert(self.chain_walk(image, self.next_of(image, start), (fuel - 1) as nat).clusters
                =~= Seq::<u32>::empty());
            assert(seq![start] + Seq::<u32>::empty() =~= chain);
        } else {
            self.lemma_linked_rest(image, chain);
            self.lemma_linked_chain_walk(image, chain.skip(1), (fuel - 1) as nat);
            assert(seq![start] + chain.skip(1) =~= chain);
        }
    }

    /// The walk of a directory from the first cluster of a chain of the FAT
    /// gives that chain.
    pub proof fn lemma_linked_dir_walk(&self, image: Seq<u8>, chain: Seq<u32>, fuel: nat)
        requires
            self.linked(image, chain),
            fuel >= chain.len(),
        ensures
            self.dir_walk(image, chain[0], fuel) == (ChainWalk { clusters: chain, complete: true }),
        decreases chain.len(),
    {
        let start = chain[0];
        if chain.len() == 1 {
            assert(chain.last() == start);
            assert(seq![start] =~= chain);
        } else {
            self.lemma_linked_rest(image, chain);
            self.lemma_linked_dir_walk(image, chain.skip(1), (fuel - 1) as nat);
            assert(seq![start] + chain.skip(1) =~= chain);
        }
    }

    /// A chain of the FAT without repeated clusters is short enough for the
    /// walks of the engine to follow it to its end.
    pub proof fn lemma_linked_fits(&self, image: Seq<u8>, chain: Seq<u32>)
        requires
            self.linked(image, chain),
            chain.no_duplicates(),
        ensures
            chain.len() <= chain_limit(image),
    {
        let bound = image.len() as int / 4 + 1;
        assert forall|i: int| 0 <= i < chain.len() implies (#[trigger] chain[i]) < bound by {
            assert(self.fat_readable(image, chain[i]));
        }
        lemma_distinct_bounded(chain, bound);
    }

    /// A chain of the FAT is read from the entries of its own clusters: an
    /// image of the same length that agrees on them has the same chain.
    pub proof fn lemma_linked_frame(&self, a: Seq<u8>, b: Seq<u8>, chain: Seq<u32>)
        requires
            self.linked(a, chain),
            a.len() == b.len(),
            self.same_links(a, b, chain),
        ensures
            self.linked(b, chain),
    {
        assert forall|i: int| 0 <= i < chain.len() implies self.fat_readable(
            b,
            #[trigger] chain[i],
        ) && self.next_of(b, chain[i]) == self.next_of(a, chain[i]) by {
            assert(agree(a, b, self.fat_pos(chain[i]), 4));
            self.lemma_next_of_agree(a, b, chain[i]);
        }
        assert(self.next_of(b, chain.last()) == self.next_of(a, chain.last()));
    }

    /// Marking a fresh cluster as the end of a chain and linking the old
    /// tail to it makes the chain one cluster longer.
    pub proof fn lemma_linked_grow(&self, image: Seq<u8>, chain: Seq<u32>, fresh: u32)
        requires
            self.linked(image, chain),
            2 <= fresh < END_OF_CHAIN,
            self.fat_readable(image, fresh),
            !chain.contains(fresh),
        ensures
            self.linked(
                self.with_next(self.with_next(image, fresh, END_OF_CHAIN), chain.last(), fresh),
                chain.push(fresh),
            ),
    {
        let marked = self.with_next(image, fresh, END_OF_CHAIN);
        let after = self.with_next(marked, chain.last(), fresh);
        let longer = chain.push(fresh);
        self.lemma_with_next(image, fresh, END_OF_CHAIN);
        self.lemma_with_next(marked, chain.last(), fresh);
        assert(END_OF_CHAIN & FAT_MASK == END_OF_CHAIN) by (bit_vector);
        assert(fresh & FAT_MASK == fresh) by (bit_vector)
            requires
                fresh < 0x0FFF_FFF8u32,
        ;
        assert(chain.last() != fresh) by {
            assert(chain.contains(chain[chain.len() - 1]));
        }
        assert forall|i: int| 0 <= i < longer.len() implies 2 <= #[trigger] longer[i]
            < END_OF_CHAIN && self.fat_readable(after, longer[i]) by {
            if i < chain.len() {
                assert(longer[i] == chain[i]);
            }
        }
        assert forall|i: int| 0 <= i < longer.len() - 1 implies self.next_of(
            after,
            #[trigger] longer[i],
        ) == longer[i + 1] by {
            assert(longer[i] == chain[i]);
            assert(chain.contains(chain[i]));
            if i < chain.len() - 1 {
                assert(longer[i + 1] == chain[i + 1]);
                assert(self.next_of(marked, chain[i]) == self.next_of(image, chain[i]));
                assert(self.fat_readable(marked, chain[i]));
                if chain[i] == chain.last() {
                    // A chain whose last cluster stands earlier too would
                    // link that cluster to two successors.
                    assert(self.next_of(image, chain[i]) >= END_OF_CHAIN);
                    assert(chain[i + 1] < END_OF_CHAIN);
                }
            }
        }
        assert(longer.last() == fresh);
    }
}

impl FAT32 {
    /// The image after the FAT entries of the clusters of a chain have been
    /// set to zero, first cluster first.
    pub open spec fn released(&self, image: Seq<u8>, chain: Seq<u32>) -> Seq<u8>
        decreases chain.len(),
    {
        if chain.len() == 0 {
            image
        } else {
            self.released(self.with_next(image, chain[0], 0), chain.skip(1))
        }
    }

    /// Releasing a chain sets the entries of its clusters to zero and
    /// changes no byte outside those entries.
    pub proof fn lemma_released(&self, image: Seq<u8>, chain: Seq<u32>)
        requires
            forall|i: int| 0 <= i < chain.len() ==> self.fat_readable(image, #[trigger] chain[i]),
        ensures
            self.released(image, chain).len() == image.len(),
            forall|i: int|
                0 <= i < chain.len() ==> self.next_of(
                    self.released(image, chain),
                    #[trigger] chain[i],
                ) == 0,
            forall|c: u32|
                !chain.contains(c) ==> agree(
                    image,
                    self.released(image, chain),
                    #[trigger] self.fat_pos(c),
                    4,
                ),
            forall|pos: int, len: int|
                pos >= self.data_region_offset && (forall|i: int|
                    0 <= i < chain.len() ==> self.in_table(#[trigger] chain[i])) ==> #[trigger] agree(
                    image,
                    self.released(image, chain),
                    pos,
                    len,
                ),
        decreases chain.len(),
    {
        if chain.len() > 0 {
            let first = chain[0];
            let rest = chain.skip(1);
            let step = self.with_next(image, first, 0);
            self.lemma_with_next(image, first, 0);
            assert(0u32 & FAT_MASK == 0) by (bit_vector);
            assert forall|i: int| 0 <= i < rest.len() implies self.fat_readable(
                step,
                #[trigger] rest[i],
            ) by {
                assert(rest[i] == chain[i + 1]);
            }
            self.lemma_released(step, rest);
            let after = self.released(step, rest);
            assert forall|i: int| 0 <= i < chain.len() implies self.next_of(
                after,
                #[trigger] chain[i],
            ) == 0 by {
                if i > 0 {
                    assert(chain[i] == rest[i - 1]);
                } else if rest.contains(first) {
                    let k = choose|k: int| 0 <= k < rest.len() && rest[k] == first;
                    assert(self.next_of(after, rest[k]) == 0);
                } else {
                    assert(agree(step, after, self.fat_pos(first), 4));
                    self.lemma_next_of_agree(step, after, first);
                }
            }
            assert forall|c: u32| !chain.contains(c) implies agree(
                image,
                after,
                #[trigger] self.fat_pos(c),
                4,
            ) by {
                assert(chain[0] == first);
                assert(c != first);
                if rest.contains(c) {
                    let k = choose|k: int| 0 <= k < rest.len() && rest[k] == c;
                    assert(chain[k + 1] == c);
                }
                assert(agree(step, after, self.fat_pos(c), 4));
            }
            assert forall|pos: int, len: int|
                pos >= self.data_region_offset && (forall|i: int|
                    0 <= i < chain.len() ==> self.in_table(#[trigger] chain[i])) implies #[trigger] agree(
                image,
                after,
                pos,
                len,
            ) by {
                assert(self.in_table(chain[0]));
                assert forall|i: int| 0 <= i < rest.len() implies self.in_table(
                    #[trigger] rest[i],
                ) by {
                    assert(rest[i] == chain[i + 1]);
                }
                assert(agree(step, after, pos, len));
            }
        }
    }

    /// Freeing a chain of the FAT without repeated clusters releases all of
    /// it and succeeds.
    pub proof fn lemma_freed_linked(&self, image: Seq<u8>, chain: Seq<u32>, fuel: nat)
        requires
            self.linked(image, chain),
            chain.no_duplicates(),
            fuel >= chain.len(),
        ensures
            self.freed(image, chain[0], fuel) == (self.released(image, chain), true),
        decreases chain.len(),
    {
        let first = chain[0];
        let rest = chain.skip(1);
        let step = self.with_next(image, first, 0);
        self.lemma_with_next(image, first, 0);
        assert(self.released(image, chain) == self.released(step, rest));
        assert(self.freed(image, first, fuel) == self.freed(
            step,
            self.next_of(image, first),
            (fuel - 1) as nat,
        ));
        if chain.len() == 1 {
            assert(chain.last() == first);
            assert(self.released(step, rest) == step);
        } else {
            self.lemma_linked_rest(image, chain);
            assert forall|i: int| 0 <= i < rest.len() implies agree(
                image,
                step,
                self.fat_pos(#[trigger] rest[i]),
                4,
            ) by {
                assert(rest[i] == chain[i + 1]);
                assert(chain[i + 1] != chain[0]);
                self.lemma_entries_apart(first, rest[i]);
                crate::frame::lemma_patched_apart(
                    image,
                    self.fat_pos(first),
                    crate::image::u32_bytes(0u32 & FAT_MASK),
                    self.fat_pos(rest[i]),
                    4,
                );
            }
            self.lemma_linked_frame(image, step, rest);
            assert(rest.no_duplicates()) by {
                assert forall|i: int, j: int|
                    0 <= i < rest.len() && 0 <= j < rest.len() && i != j implies rest[i]
                    != rest[j] by {
                    assert(rest[i] == chain[i + 1]);
                    assert(rest[j] == chain[j + 1]);
                }
            }
            self.lemma_freed_linked(step, rest, (fuel - 1) as nat);
        }
    }
}

} // verus!
