//! Partitioning strategies: traversal-order partitioning in breadth-first
//! or depth-first order, and balanced random assignment.

use vstd::prelude::*;

use rand::seq::SliceRandom;
use rand::Rng;

use crate::hypergraph::{HgError, Hypergraph};
use crate::partition::{
    lemma_sum_usize_entry, lemma_sum_usize_nonneg, Partition, PartitionManager, Tolerance,
};
use crate::search::{is_traversal_of, lemma_nodup_complete, traversal_order};
use vstd::arithmetic::div_mod::{
    lemma_div_pos_is_pos, lemma_fundamental_div_mod, lemma_fundamental_div_mod_converse,
    lemma_mod_bound,
};
use vstd::set_lib::{lemma_int_range, lemma_map_size, set_int_range};

verus! {

/// How many entries of `s` equal `b`.
pub open spec fn count_val(s: Seq<usize>, b: usize) -> int
    decreases s.len(),
{
    if s.len() == 0 {
        0int
    } else {
        count_val(s.drop_last(), b) + if s.last() == b {
            1int
        } else {
            0int
        }
    }
}

/// The chunk of a traversal handed to each block: the vertex count divided
/// by the block count, rounded up.
pub open spec fn chunk_size(n: nat, k: nat) -> int {
    (n + k - 1) / (k as int)
}

/// How many vertices traversal-order partitioning places in block `b`:
/// the whole chunk for the leading blocks, what is left of the traversal
/// for the block holding its tail, nothing for the blocks after it.
pub open spec fn chunk_block_count(n: nat, chunk: int, b: int) -> int {
    let lo = if b * chunk > n {
        n as int
    } else {
        b * chunk
    };
    let hi = if (b + 1) * chunk > n {
        n as int
    } else {
        (b + 1) * chunk
    };
    hi - lo
}

/// A partition assigns the traversal order in chunks: the vertex visited
/// at position `i` lies in block `i / chunk`.
pub open spec fn assigns_chunks(p: Seq<usize>, ord: Seq<usize>, chunk: int) -> bool {
    forall|i: int| 0 <= i < ord.len() ==> #[trigger] p[ord[i] as int] == i / chunk
}

/// A partition produced by traversal-order partitioning: some total
/// visitation order of the hypergraph, assigned in chunks.
pub open spec fn is_chunked_traversal_partition(g: Hypergraph, p: Seq<usize>, k: nat) -> bool {
    exists|ord: Seq<usize>|
        is_traversal_of(g, ord) && assigns_chunks(p, ord, chunk_size(g.len_spec(), k))
}

/// The count of a value equals the size of the index set holding it.
proof fn lemma_count_is_card(s: Seq<usize>, b: usize)
    ensures
        Set::new(|v: int| 0 <= v < s.len() && s[v] == b).finite(),
        count_val(s, b) == Set::new(|v: int| 0 <= v < s.len() && s[v] == b).len(),
    decreases s.len(),
{
    let a = Set::new(|v: int| 0 <= v < s.len() && s[v] == b);
    if s.len() == 0 {
        assert(a =~= Set::empty());
    } else {
        let t = s.drop_last();
        lemma_count_is_card(t, b);
        let at = Set::new(|v: int| 0 <= v < t.len() && t[v] == b);
        if s.last() == b {
            assert(a =~= at.insert(s.len() - 1));
            assert(!at.contains(s.len() - 1));
        } else {
            assert(a =~= at);
        }
    }
}

/// The law of traversal-order partitioning: with `n` vertices and a chunk
/// of `ceil(n / k)`, block `b` receives exactly the vertices at traversal
/// positions `[b * chunk, (b + 1) * chunk)` that exist, so the leading
/// blocks hold a full chunk each and the block holding the traversal's
/// tail holds the rest.
pub proof fn lemma_chunk_counts(p: Seq<usize>, ord: Seq<usize>, chunk: int, b: usize)
    requires
        chunk >= 1,
        p.len() <= usize::MAX,
        ord.no_duplicates(),
        ord.len() == p.len(),
        forall|t: int| 0 <= t < ord.len() ==> #[trigger] ord[t] < p.len(),
        assigns_chunks(p, ord, chunk),
    ensures
        count_val(p, b) == chunk_block_count(p.len(), chunk, b as int),
{
    let n = p.len() as int;
    let a = Set::new(|v: int| 0 <= v < n && p[v] == b);
    lemma_count_is_card(p, b);
    let bi = b as int;
    let lo = if bi * chunk > n {
        n
    } else {
        bi * chunk
    };
    let hi = if (bi + 1) * chunk > n {
        n
    } else {
        (bi + 1) * chunk
    };
    assert(bi * chunk >= 0) by (nonlinear_arith)
        requires
            bi >= 0,
            chunk >= 1,
    ;
    assert((bi + 1) * chunk == bi * chunk + chunk) by (nonlinear_arith);
    assert(lo <= hi);
    // The traversal positions that land in block b are exactly [lo, hi).
    assert forall|i: int| 0 <= i < n implies ((#[trigger] (i / chunk)) == bi <==> lo <= i < hi) by {
        lemma_fundamental_div_mod(i, chunk);
        lemma_mod_bound(i, chunk);
        assert(chunk * bi == bi * chunk) by (nonlinear_arith);
        if i / chunk == bi {
            assert(i == chunk * bi + (i % chunk));
            assert(bi * chunk <= i < bi * chunk + chunk);
        }
        if lo <= i < hi {
            assert(lo == bi * chunk);
            assert(i < bi * chunk + chunk);
            lemma_fundamental_div_mod_converse(i, chunk, bi, i - bi * chunk);
        }
    }
    let bset = set_int_range(lo, hi);
    lemma_int_range(lo, hi);
    lemma_nodup_complete(ord, p.len());
    let f = |i: int| ord[i] as int;
    assert(bset.map(f) =~= a) by {
        assert forall|v: int| bset.map(f).contains(v) implies a.contains(v) by {
            let i = choose|i: int| bset.contains(i) && f(i) == v;
            assert(0 <= i < n);
            assert(i / chunk == bi);
            assert(p[ord[i] as int] == i / chunk);
        }
        assert forall|v: int| a.contains(v) implies bset.map(f).contains(v) by {
            assert(0 <= v < n && p[v] == b);
            assert(ord.contains(v as usize));
            assert(exists|i: int| 0 <= i < ord.len() && ord[i] == v as usize);
            let i = choose|i: int| 0 <= i < ord.len() && ord[i] == v as usize;
            assert(0 <= i < ord.len() && ord[i] == v as usize);
            assert(p[ord[i] as int] == i / chunk);
            assert(i / chunk == bi);
            assert(bset.contains(i));
            assert(f(i) == v);
        }
    }
    assert(vstd::relations::injective_on(f, bset)) by {
        assert forall|x: int, y: int|
            #![trigger f(x), f(y)]
            bset.contains(x) && bset.contains(y) && f(x) == f(y) implies x == y by {
            if x != y {
                assert(ord[x] != ord[y]);
            }
        }
    }
    lemma_map_size(bset, a, f);
}

impl Hypergraph {
    /// Assigns a traversal order to blocks in contiguous chunks of
    /// `ceil(n / blocks)` vertices, each vertex with the default weight.
    fn partition_order(&self, blocks: usize, order: &Vec<usize>) -> (r: Partition)
        requires
            self.wf(),
            self.dense(),
            1 <= blocks <= u32::MAX,
            is_traversal_of(*self, order@),
        ensures
            r.0@.len() == self.len_spec(),
            assigns_chunks(r.0@, order@, chunk_size(self.len_spec(), blocks as nat)),
            forall|v: int| 0 <= v < r.0@.len() ==> #[trigger] r.0@[v] < blocks,
            forall|b: usize|
                b < blocks ==> #[trigger] count_val(r.0@, b) == chunk_block_count(
                    self.len_spec(),
                    chunk_size(self.len_spec(), blocks as nat),
                    b as int,
                ),
    {
        let n = self.len();
        let ghost chunk_g = chunk_size(self.len_spec(), blocks as nat);
        proof {
            lemma_fundamental_div_mod(n as int, blocks as int);
            lemma_mod_bound(n as int, blocks as int);
            lemma_div_pos_is_pos(n as int, blocks as int);
            let q = n as int / blocks as int;
            assert(q <= blocks * q) by (nonlinear_arith)
                requires
                    blocks >= 1,
                    q >= 0,
            ;
        }
        let chunk: usize = n / blocks + (if n % blocks > 0 {
            1
        } else {
            0
        });
        proof {
            lemma_ceil_div(n as int, blocks as int);
            assert(chunk == chunk_g);
        }
        let mut mgr = PartitionManager::new(blocks, n, Tolerance::zero());
        proof {
            crate::partition::lemma_sum_zero(mgr.weights@);
            assert forall|t: int| 0 <= t < order@.len() implies #[trigger] order@[t] < n by {
                assert(order@.contains(order@[t]));
                assert(self.has_vertex(order@[t]));
                let k = choose|k: int| 0 <= k < self.ids@.len() && self.ids@[k] == order@[t];
                assert(self.ids@[k] == k);
            }
        }
        let mut i: usize = 0;
        while i < n
            invariant
                0 <= i <= n,
                self.wf(),
                self.dense(),
                1 <= blocks <= u32::MAX,
                n == self.len_spec(),
                is_traversal_of(*self, order@),
                order@.len() == n,
                chunk == chunk_g,
                chunk_g == chunk_size(self.len_spec(), blocks as nat),
                forall|t: int| 0 <= t < order@.len() ==> #[trigger] order@[t] < n,
                mgr.wf(),
                mgr.num_blocks == blocks,
                mgr.blocks.0@.len() == n,
                mgr.total_weight() == i,
                forall|t: int|
                    0 <= t < i ==> #[trigger] mgr.blocks.0@[order@[t] as int] == t / chunk_g,
                forall|v: int| 0 <= v < n ==> #[trigger] mgr.blocks.0@[v] < blocks,
            decreases n - i,
        {
            proof {
                lemma_chunk_quotient_bound(n as int, blocks as int, chunk as int, i as int);
            }
            let block = i / chunk;
            proof {
                assert(block < blocks);
                assert(order@.contains(order@[i as int])) by {
                    assert(order@[i as int] == order@[i as int]);
                }
                assert(self.has_vertex(order@[i as int]));
                let k = choose|k: int| 0 <= k < self.ids@.len() && self.ids@[k] == order@[i as int];
                assert(self.ids@[k] == k);
                assert(order@[i as int] < n);
            }
            let vertex = order[i];
            let ghost pre_blocks = mgr.blocks.0@;
            mgr.add(block, vertex, 1);
            proof {
                assert forall|t: int|
                    0 <= t < i + 1 implies #[trigger] mgr.blocks.0@[order@[t] as int] == t
                    / chunk_g by {
                    if t < i {
                        assert(order@[t] != order@[i as int]);
                        assert(mgr.blocks.0@[order@[t] as int] == pre_blocks[order@[t] as int]);
                    } else {
                        assert(mgr.blocks.0@[order@[i as int] as int] == block);
                    }
                }
            }
            i += 1;
        }
        proof {
            assert forall|b: usize|
                b < blocks implies #[trigger] count_val(mgr.blocks.0@, b) == chunk_block_count(
                self.len_spec(),
                chunk_g,
                b as int,
            ) by {
                if n > 0 {
                    lemma_chunk_quotient_bound(n as int, blocks as int, chunk_g, 0);
                    lemma_chunk_counts(mgr.blocks.0@, order@, chunk_g, b);
                } else {
                    assert(mgr.blocks.0@.len() == 0);
                    assert(chunk_block_count(0, chunk_g, b as int) == 0) by {
                        assert((b as int) * chunk_g >= 0) by (nonlinear_arith)
                            requires
                                b >= 0,
                                chunk_g >= 0,
                        ;
                        assert((b as int + 1) * chunk_g >= 0) by (nonlinear_arith)
                            requires
                                b >= 0,
                                chunk_g >= 0,
                        ;
                    }
                }
            }
        }
        mgr.blocks
    }

    /// Partitions the hypergraph along its breadth-first order, in
    /// contiguous chunks of `ceil(n / blocks)` traversed vertices.
    ///
    /// No imbalance tolerance applies: the tolerance is fixed at zero and
    /// never consulted.
    pub fn partition_bfs(&self, blocks: usize) -> (r: Result<Partition, HgError>)
        requires
            self.wf(),
        ensures
            match r {
                Ok(p) => {
                    &&& 1 <= blocks <= u32::MAX
                    &&& self.dense()
                    &&& p.0@.len() == self.len_spec()
                    &&& forall|v: int| 0 <= v < p.0@.len() ==> #[trigger] p.0@[v] < blocks
                    &&& assigns_chunks(
                        p.0@,
                        traversal_order::<std::collections::VecDeque<usize>>(*self),
                        chunk_size(self.len_spec(), blocks as nat),
                    )
                    &&& is_chunked_traversal_partition(*self, p.0@, blocks as nat)
                    &&& forall|b: usize|
                        b < blocks ==> #[trigger] count_val(p.0@, b) == chunk_block_count(
                            self.len_spec(),
                            chunk_size(self.len_spec(), blocks as nat),
                            b as int,
                        )
                },
                Err(e) => {
                    &&& (blocks == 0 ==> e == HgError::ZeroBlocks)
                    &&& (blocks > u32::MAX ==> e == HgError::TooManyBlocks)
                    &&& (1 <= blocks <= u32::MAX ==> e == HgError::InconsistentIndexing
                        && !self.dense())
                },
            },
    {
        if blocks == 0 {
            return Err(HgError::ZeroBlocks);
        }
        if blocks > u32::MAX as usize {
            return Err(HgError::TooManyBlocks);
        }
        let order = match self.bfs() {
            Ok(order) => order,
            Err(e) => {
                return Err(e);
            },
        };
        let p = self.partition_order(blocks, &order);
        proof {
            assert(is_traversal_of(*self, order@) && assigns_chunks(
                p.0@,
                order@,
                chunk_size(self.len_spec(), blocks as nat),
            ));
        }
        Ok(p)
    }

    /// Partitions the hypergraph along its depth-first order, in
    /// contiguous chunks of `ceil(n / blocks)` traversed vertices.
    ///
    /// No imbalance tolerance applies: the tolerance is fixed at zero and
    /// never consulted.
    pub fn partition_dfs(&self, blocks: usize) -> (r: Result<Partition, HgError>)
        requires
            self.wf(),
        ensures
            match r {
                Ok(p) => {
                    &&& 1 <= blocks <= u32::MAX
                    &&& self.dense()
                    &&& p.0@.len() == self.len_spec()
                    &&& forall|v: int| 0 <= v < p.0@.len() ==> #[trigger] p.0@[v] < blocks
                    &&& assigns_chunks(
                        p.0@,
                        traversal_order::<Vec<usize>>(*self),
                        chunk_size(self.len_spec(), blocks as nat),
                    )
                    &&& is_chunked_traversal_partition(*self, p.0@, blocks as nat)
                    &&& forall|b: usize|
                        b < blocks ==> #[trigger] count_val(p.0@, b) == chunk_block_count(
                            self.len_spec(),
                            chunk_size(self.len_spec(), blocks as nat),
                            b as int,
                        )
                },
                Err(e) => {
                    &&& (blocks == 0 ==> e == HgError::ZeroBlocks)
                    &&& (blocks > u32::MAX ==> e == HgError::TooManyBlocks)
                    &&& (1 <= blocks <= u32::MAX ==> e == HgError::InconsistentIndexing
                        && !self.dense())
                },
            },
    {
        if blocks == 0 {
            return Err(HgError::ZeroBlocks);
        }
        if blocks > u32::MAX as usize {
            return Err(HgError::TooManyBlocks);
        }
        let order = match self.dfs() {
            Ok(order) => order,
            Err(e) => {
                return Err(e);
            },
        };
        let p = self.partition_order(blocks, &order);
        proof {
            assert(is_traversal_of(*self, order@) && assigns_chunks(
                p.0@,
                order@,
                chunk_size(self.len_spec(), blocks as nat),
            ));
        }
        Ok(p)
    }

    /// Partitions the hypergraph by balanced random assignment: the
    /// vertices are shuffled, each samples a random block, takes it when
    /// the balance tolerance admits it and the following block otherwise,
    /// with no further check.
    ///
    /// Which block a vertex receives depends on the random source; every
    /// outcome assigns each vertex exactly one block below `blocks`.
    pub fn partition_random(&self, blocks: usize, imbalance: Tolerance) -> (r: Result<
        Partition,
        HgError,
    >)
        requires
            self.wf(),
            imbalance.den >= 1,
        ensures
            match r {
                Ok(p) => {
                    &&& 1 <= blocks <= u32::MAX
                    &&& p.0@.len() == self.len_spec()
                    &&& forall|v: int| 0 <= v < p.0@.len() ==> #[trigger] p.0@[v] < blocks
                },
                Err(e) => {
                    &&& (blocks == 0 || blocks > u32::MAX)
                    &&& (blocks == 0 <==> e == HgError::ZeroBlocks)
                    &&& (blocks > u32::MAX <==> e == HgError::TooManyBlocks)
                },
            },
    {
        if blocks == 0 {
            return Err(HgError::ZeroBlocks);
        }
        if blocks > u32::MAX as usize {
            return Err(HgError::TooManyBlocks);
        }
        let n = self.len();
        let mut mgr = PartitionManager::new(blocks, n, imbalance);
        proof {
            crate::partition::lemma_sum_zero(mgr.weights@);
        }
        let mut vertices: Vec<usize> = Vec::new();
        let mut i: usize = 0;
        while i < n
            invariant
                0 <= i <= n,
                vertices@.len() == i,
                forall|k: int| 0 <= k < i ==> #[trigger] vertices@[k] < n,
            decreases n - i,
        {
            vertices.push(i);
            i += 1;
        }
        let ghost pre_shuffle = vertices@;
        shuffle_vertices(&mut vertices);
        proof {
            assert forall|k: int| 0 <= k < vertices@.len() implies #[trigger] vertices@[k] < n by {
                assert(vertices@.contains(vertices@[k]));
                assert(pre_shuffle.contains(vertices@[k]));
                let j = choose|j: int| 0 <= j < pre_shuffle.len() && pre_shuffle[j] == vertices@[k];
            }
        }
        let mut t: usize = 0;
        while t < vertices.len()
            invariant
                0 <= t <= vertices@.len(),
                vertices@.len() == n,
                n == self.len_spec(),
                forall|k: int| 0 <= k < vertices@.len() ==> #[trigger] vertices@[k] < n,
                1 <= blocks <= u32::MAX,
                mgr.wf(),
                mgr.num_blocks == blocks,
                mgr.blocks.0@.len() == n,
                mgr.total_weight() == t,
                forall|v: int| 0 <= v < n ==> #[trigger] mgr.blocks.0@[v] < blocks,
            decreases vertices@.len() - t,
        {
            let vertex = vertices[t];
            let block = random_below(blocks);
            proof {
                lemma_sum_usize_entry(mgr.weights@, block as int);
                lemma_sum_usize_nonneg(mgr.weights@);
            }
            if mgr.is_balanced(block, Some(1)) {
                mgr.add(block, vertex, 1);
            } else {
                let next_block = (block + 1) % blocks;
                proof {
                    lemma_sum_usize_entry(mgr.weights@, next_block as int);
                }
                mgr.add(next_block, vertex, 1);
            }
            t += 1;
        }
        Ok(mgr.blocks)
    }
}

/// The division of `n` by `k`, rounded up, equals the rounded-down
/// quotient plus one when the division leaves a remainder.
proof fn lemma_ceil_div(n: int, k: int)
    requires
        k >= 1,
        n >= 0,
    ensures
        (n + k - 1) / k == n / k + (if n % k > 0 {
            1int
        } else {
            0int
        }),
{
    lemma_fundamental_div_mod(n, k);
    let q = n / k;
    let r = n % k;
    assert(k * q == q * k) by (nonlinear_arith);
    if r > 0 {
        assert((q + 1) * k == q * k + k) by (nonlinear_arith);
        assert(n + k - 1 == (q + 1) * k + (r - 1));
        lemma_fundamental_div_mod_converse(n + k - 1, k, q + 1, r - 1);
    } else {
        assert(n + k - 1 == q * k + (k - 1));
        lemma_fundamental_div_mod_converse(n + k - 1, k, q, k - 1);
    }
}

/// The quotient `i / chunk` stays below the block count when `i < n` and
/// `chunk` is `n / blocks` rounded up.
proof fn lemma_chunk_quotient_bound(n: int, blocks: int, chunk: int, i: int)
    requires
        blocks >= 1,
        chunk == (n + blocks - 1) / blocks,
        0 <= i < n,
    ensures
        chunk >= 1,
        i / chunk < blocks,
{
    lemma_fundamental_div_mod(n + blocks - 1, blocks);
    if chunk == 0 {
        assert(n + blocks - 1 == blocks * 0 + (n + blocks - 1) % blocks);
        assert(false);
    }
    // chunk * blocks >= n, so i < chunk * blocks and the quotient is below blocks.
    let q = (n + blocks - 1) / blocks;
    assert(blocks * q >= n) by {
        assert(n + blocks - 1 == blocks * q + (n + blocks - 1) % blocks);
        assert((n + blocks - 1) % blocks < blocks);
    }
    assert(blocks * q == q * blocks) by (nonlinear_arith);
    assert(i < chunk * blocks);
    lemma_fundamental_div_mod(i, chunk);
    assert(i == chunk * (i / chunk) + i % chunk);
    if i / chunk >= blocks {
        assert(chunk * (i / chunk) >= chunk * blocks) by (nonlinear_arith)
            requires
                chunk >= 1,
                i / chunk >= blocks,
        ;
        assert(i % chunk >= 0);
        assert(false);
    }
}

/// Relies on rand::seq::SliceRandom::shuffle with the thread-local
/// generator: the result holds exactly the same values, rearranged.
#[verifier::external_body]
fn shuffle_vertices(v: &mut Vec<usize>)
    ensures
        final(v)@.to_multiset() == old(v)@.to_multiset(),
        final(v)@.len() == old(v)@.len(),
        forall|x: usize| final(v)@.contains(x) <==> old(v)@.contains(x),
{
    v.shuffle(&mut rand::rng());
}

/// Relies on rand::Rng::random_range over `0..bound` with the
/// thread-local generator: some value below `bound`.
#[verifier::external_body]
fn random_below(bound: usize) -> (r: usize)
    requires
        bound >= 1,
    ensures
        r < bound,
{
    rand::rng().random_range(0..bound)
}

} // verus!
