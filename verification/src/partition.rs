//! The partition ledger: a vertex-to-block assignment with per-block
//! weight accounting and imbalance evaluation.

use vstd::prelude::*;

use vstd::string::{StringExecFns, StringSliceAdditionalSpecFns};

verus! {

/// The result of a partitioner, mapping each vertex to a block.
///
/// Entry `i` indicates the block that vertex `i` is in.
#[derive(Debug, Clone)]
pub struct Partition(pub Vec<usize>);

impl Partition {
    /// Creates an empty mapping.
    pub fn new() -> (r: Self)
        ensures
            r.0@.len() == 0,
    {
        Partition(Vec::new())
    }

    /// The block assignments, in ascending vertex order.
    pub fn iter(&self) -> (r: &Vec<usize>)
        ensures
            r@ == self.0@,
    {
        &self.0
    }
}

/// The partition mapping text: one block id per line, in ascending
/// vertex order.
pub open spec fn partition_chars(s: Seq<usize>) -> Seq<char>
    decreases s.len(),
{
    if s.len() == 0 {
        Seq::empty()
    } else {
        partition_chars(s.drop_last()) + crate::text::dec_chars(s.last() as int) + seq!['\n']
    }
}

/// A partition mapping text matches when every line is one representable
/// number.
pub open spec fn partition_text_ok(bytes: Seq<u8>) -> bool {
    forall|i: int|
        0 <= i < crate::hmetis::split_lines(bytes).len() ==> crate::text::digits_token_ok(
            #[trigger] crate::hmetis::split_lines(bytes)[i],
        )
}

impl Partition {
    /// Serializes the mapping: one block id per line.
    pub fn to_text(&self) -> (r: String)
        ensures
            r@ == partition_chars(self.0@),
    {
        let mut out = String::new();
        let mut i: usize = 0;
        proof {
            assert(out@ =~= partition_chars(self.0@.take(0)));
        }
        while i < self.0.len()
            invariant
                0 <= i <= self.0@.len(),
                out@ == partition_chars(self.0@.take(i as int)),
            decreases self.0@.len() - i,
        {
            crate::text::append_dec(&mut out, self.0[i] as u64);
            proof {
                reveal_strlit("\n");
            }
            out.append("\n");
            proof {
                assert(self.0@.take(i + 1int).drop_last() =~= self.0@.take(i as int));
                assert(self.0@.take(i + 1int).last() == self.0@[i as int]);
                assert(out@ =~= partition_chars(self.0@.take(i + 1int)));
            }
            i += 1;
        }
        proof {
            assert(self.0@.take(self.0@.len() as int) =~= self.0@);
        }
        out
    }

    /// Reads a mapping out of its text: one block id per line.  Succeeds
    /// if, and only if, every line is one representable number.
    #[verifier::loop_isolation(false)]
    pub fn from_text(input: &str) -> (r: Result<Partition, crate::hmetis::ParseError>)
        ensures
            match r {
                Ok(p) => partition_text_ok(input.spec_bytes()) && {
                    let ls = crate::hmetis::split_lines(input.spec_bytes());
                    &&& p.0@.len() == ls.len()
                    &&& forall|i: int|
                        0 <= i < ls.len() ==> #[trigger] p.0@[i] == crate::text::digits_val(ls[i])
                },
                Err(_) => !partition_text_ok(input.spec_bytes()),
            },
    {
        let bytes: &[u8] = input.as_bytes();
        let lines = crate::hmetis::split_into_lines(bytes);
        let ghost ls = crate::hmetis::split_lines(input.spec_bytes());
        let mut blocks: Vec<usize> = Vec::new();
        let mut i: usize = 0;
        while i < lines.len()
            invariant
                0 <= i <= lines@.len(),
                blocks@.len() == i,
                forall|k: int|
                    0 <= k < i ==> crate::text::digits_token_ok(#[trigger] ls[k]),
                forall|k: int|
                    0 <= k < i ==> #[trigger] blocks@[k] == crate::text::digits_val(ls[k]),
            decreases lines@.len() - i,
        {
            proof {
                assert(lines@[i as int]@ == ls[i as int]);
            }
            match crate::text::parse_usize_token(&lines[i]) {
                Some(v) => {
                    blocks.push(v);
                },
                None => {
                    proof {
                        assert(!crate::text::digits_token_ok(ls[i as int]));
                    }
                    return Err(crate::hmetis::ParseError { line: i });
                },
            }
            i += 1;
        }
        Ok(Partition(blocks))
    }
}

impl Default for Partition {
    fn default() -> (r: Self)
        ensures
            r.0@.len() == 0,
    {
        Partition::new()
    }
}

impl From<Vec<usize>> for Partition {
    fn from(value: Vec<usize>) -> (r: Partition) {
        Partition(value)
    }
}

impl vstd::std_specs::convert::FromSpecImpl<Vec<usize>> for Partition {
    open spec fn obeys_from_spec() -> bool {
        true
    }

    open spec fn from_spec(v: Vec<usize>) -> Partition {
        Partition(v)
    }
}

/// An imbalance tolerance, as the exact fraction `num / den`.
#[derive(Debug, Clone, Copy, PartialEq, Eq, Structural)]
pub struct Tolerance {
    /// The numerator of the tolerated imbalance.
    pub num: u32,
    /// The positive denominator of the tolerated imbalance.
    pub den: u32,
}

impl Tolerance {
    /// A tolerance admitting only a perfectly balanced block.
    pub fn zero() -> (r: Tolerance)
        ensures
            r.num == 0,
            r.den == 1,
    {
        Tolerance { num: 0, den: 1 }
    }

    /// The exact fraction `num / den`.
    pub fn new(num: u32, den: u32) -> (r: Tolerance)
        requires
            den >= 1,
        ensures
            r.num == num,
            r.den == den,
    {
        Tolerance { num, den }
    }
}

/// The sum of a weight sequence.
pub open spec fn sum_usize(s: Seq<usize>) -> int
    decreases s.len(),
{
    if s.len() == 0 {
        0
    } else {
        sum_usize(s.drop_last()) + s.last()
    }
}

/// A prefix sums to no more than the whole.
pub proof fn lemma_sum_usize_prefix(s: Seq<usize>, i: int)
    requires
        0 <= i <= s.len(),
    ensures
        sum_usize(s.take(i)) <= sum_usize(s),
        sum_usize(s.take(i)) >= 0,
    decreases s.len() - i,
{
    lemma_sum_usize_nonneg(s.take(i));
    if i < s.len() {
        lemma_sum_usize_prefix(s, i + 1);
        assert(s.take(i + 1).drop_last() =~= s.take(i));
        assert(sum_usize(s.take(i + 1)) == sum_usize(s.take(i)) + s[i]);
    } else {
        assert(s.take(i) =~= s);
    }
}

/// A weight sum is never negative.
pub proof fn lemma_sum_usize_nonneg(s: Seq<usize>)
    ensures
        sum_usize(s) >= 0,
    decreases s.len(),
{
    if s.len() > 0 {
        lemma_sum_usize_nonneg(s.drop_last());
    }
}

/// One entry accounts for no more than the whole sum.
pub proof fn lemma_sum_usize_entry(s: Seq<usize>, i: int)
    requires
        0 <= i < s.len(),
    ensures
        s[i] <= sum_usize(s),
    decreases s.len(),
{
    if i == s.len() - 1 {
        lemma_sum_usize_nonneg(s.drop_last());
    } else {
        lemma_sum_usize_entry(s.drop_last(), i);
    }
}

/// Updating one entry moves the sum by the difference.
pub proof fn lemma_sum_usize_update(s: Seq<usize>, i: int, v: usize)
    requires
        0 <= i < s.len(),
    ensures
        sum_usize(s.update(i, v)) == sum_usize(s) - s[i] + v,
    decreases s.len(),
{
    let t = s.update(i, v);
    if i == s.len() - 1 {
        assert(t.drop_last() =~= s.drop_last());
        assert(t.last() == v);
    } else {
        assert(t.drop_last() =~= s.drop_last().update(i, v));
        assert(t.last() == s.last());
        lemma_sum_usize_update(s.drop_last(), i, v);
    }
}

/// Keeps track of a partition of a hypergraph.
pub struct PartitionManager {
    /// The actual partition.
    pub blocks: Partition,
    /// Weights of each block.
    pub weights: Vec<usize>,
    /// The amount of blocks in the partition.
    pub num_blocks: usize,
    /// The allowed imbalance tolerance.
    pub imbalance: Tolerance,
}

impl PartitionManager {
    /// Consistency of the ledger's bookkeeping.
    pub open spec fn wf(self) -> bool {
        &&& 1 <= self.num_blocks <= u32::MAX
        &&& self.weights@.len() == self.num_blocks
        &&& self.imbalance.den >= 1
        &&& sum_usize(self.weights@) <= usize::MAX
    }

    /// The weight of the whole (current) partition.
    pub open spec fn total_weight(self) -> int {
        sum_usize(self.weights@)
    }

    /// The imbalance of a block, scaled by the block count: the absolute
    /// difference between the total weight and the block count times the
    /// block's weight (including an optional candidate weight).  The real
    /// imbalance is this value divided by the block count.
    pub open spec fn imbalance_scaled(self, block: int, candidate: int) -> int {
        let partial = self.weights@[block] + candidate;
        let diff = self.total_weight() - self.num_blocks * partial;
        if diff < 0 {
            -diff
        } else {
            diff
        }
    }

    /// Whether a block's imbalance, with an optional candidate weight
    /// added, stays within the configured tolerance.
    pub open spec fn balanced_spec(self, block: int, candidate: int) -> bool {
        self.imbalance_scaled(block, candidate) * self.imbalance.den <= self.imbalance.num
            * self.num_blocks
    }

    /// Initializes a new partition manager: every vertex in block zero,
    /// no weight accumulated.
    pub fn new(num_blocks: usize, num_vertices: usize, imbalance: Tolerance) -> (r:
        PartitionManager)
        requires
            1 <= num_blocks <= u32::MAX,
            imbalance.den >= 1,
        ensures
            r.wf(),
            r.num_blocks == num_blocks,
            r.imbalance == imbalance,
            r.blocks.0@ == Seq::new(num_vertices as nat, |i: int| 0usize),
            r.weights@ == Seq::new(num_blocks as nat, |i: int| 0usize),
    {
        let blocks: Vec<usize> = vec![0; num_vertices];
        let weights: Vec<usize> = vec![0; num_blocks];
        proof {
            assert(blocks@ =~= Seq::new(num_vertices as nat, |i: int| 0usize));
            assert(weights@ =~= Seq::new(num_blocks as nat, |i: int| 0usize));
            lemma_sum_zero(weights@);
        }
        PartitionManager { blocks: Partition(blocks), weights, num_blocks, imbalance }
    }

    /// Adds the given vertex with a weight to the specified block.
    pub fn add(&mut self, block: usize, vertex: usize, weight: usize)
        requires
            old(self).wf(),
            block < old(self).num_blocks,
            vertex < old(self).blocks.0@.len(),
            old(self).total_weight() + weight <= usize::MAX,
        ensures
            final(self).wf(),
            final(self).num_blocks == old(self).num_blocks,
            final(self).imbalance == old(self).imbalance,
            final(self).blocks.0@ == old(self).blocks.0@.update(vertex as int, block),
            final(self).weights@ == old(self).weights@.update(
                block as int,
                (old(self).weights@[block as int] + weight) as usize,
            ),
            final(self).total_weight() == old(self).total_weight() + weight,
    {
        proof {
            lemma_sum_usize_entry(self.weights@, block as int);
            lemma_sum_usize_nonneg(self.weights@);
            lemma_sum_usize_update(
                self.weights@,
                block as int,
                (self.weights@[block as int] + weight) as usize,
            );
        }
        self.blocks.0.set(vertex, block);
        let w = self.weights[block];
        self.weights.set(block, w + weight);
    }

    /// Calculates the imbalance of a given block as an exact fraction:
    /// the numerator is the scaled imbalance, the denominator the block
    /// count.
    ///
    /// Optionally, the weight of a candidate to add to the given block
    /// can be given to include it in the calculation.
    ///
    /// The returned imbalance is non-negative.
    pub fn imbalance(&self, block: usize, candidate: Option<usize>) -> (r: (u128, usize))
        requires
            self.wf(),
            block < self.num_blocks,
            self.weights@[block as int] + candidate_weight(candidate) <= usize::MAX,
        ensures
            r.0 == self.imbalance_scaled(block as int, candidate_weight(candidate)),
            r.1 == self.num_blocks,
    {
        let mut total: u128 = 0;
        let mut i: usize = 0;
        while i < self.weights.len()
            invariant
                0 <= i <= self.weights@.len(),
                self.wf(),
                total == sum_usize(self.weights@.take(i as int)),
            decreases self.weights@.len() - i,
        {
            proof {
                assert(self.weights@.take(i + 1int).drop_last() =~= self.weights@.take(i as int));
                assert(self.weights@.take(i + 1int).last() == self.weights@[i as int]);
                lemma_sum_usize_prefix(self.weights@, i + 1);
            }
            total += self.weights[i] as u128;
            i += 1;
        }
        proof {
            assert(self.weights@.take(self.weights@.len() as int) =~= self.weights@);
        }
        let mut partial: u128 = self.weights[block] as u128;
        if let Some(c) = candidate {
            partial += c as u128;
        }
        let k: u128 = self.num_blocks as u128;
        proof {
            assert(k * partial <= (u32::MAX as int) * (usize::MAX as int)) by (nonlinear_arith)
                requires
                    0 <= k <= u32::MAX,
                    0 <= partial <= usize::MAX,
            ;
        }
        let scaled = k * partial;
        let diff: u128 = if total >= scaled {
            total - scaled
        } else {
            scaled - total
        };
        (diff, self.num_blocks)
    }

    /// Checks whether the imbalance of the given block stays within the
    /// configured tolerance.
    ///
    /// Optionally, the weight of a candidate to add to the given block
    /// can be given to include it in the calculation.
    pub fn is_balanced(&self, block: usize, candidate: Option<usize>) -> (r: bool)
        requires
            self.wf(),
            block < self.num_blocks,
            self.weights@[block as int] + candidate_weight(candidate) <= usize::MAX,
        ensures
            r == self.balanced_spec(block as int, candidate_weight(candidate)),
    {
        let (diff, k) = self.imbalance(block, candidate);
        proof {
            assert(diff <= (u32::MAX as int) * (usize::MAX as int)) by {
                assert(diff == self.imbalance_scaled(block as int, candidate_weight(candidate)));
                lemma_sum_usize_nonneg(self.weights@);
                assert(self.weights@[block as int] + candidate_weight(candidate) <= usize::MAX);
                assert(self.num_blocks * (self.weights@[block as int] + candidate_weight(
                    candidate,
                )) <= (u32::MAX as int) * (usize::MAX as int)) by (nonlinear_arith)
                    requires
                        0 <= self.num_blocks <= u32::MAX,
                        0 <= self.weights@[block as int] + candidate_weight(candidate)
                            <= usize::MAX,
                ;
            }
            assert(diff * (self.imbalance.den as u128) <= ((u32::MAX as int) * (usize::MAX as int))
                * (u32::MAX as int)) by (nonlinear_arith)
                requires
                    0 <= diff <= (u32::MAX as int) * (usize::MAX as int),
                    0 <= self.imbalance.den <= u32::MAX,
            ;
            assert(((u32::MAX as int) * (usize::MAX as int)) * (u32::MAX as int) <= u128::MAX)
                by (nonlinear_arith);
            assert((self.imbalance.num as int) * (k as int) <= (u32::MAX as int) * (u32::MAX as int))
                by (nonlinear_arith)
                requires
                    0 <= self.imbalance.num <= u32::MAX,
                    0 <= k <= u32::MAX,
            ;
        }
        diff * (self.imbalance.den as u128) <= (self.imbalance.num as u128) * (k as u128)
    }
}

/// The weight a candidate contributes: zero when there is none.
pub open spec fn candidate_weight(candidate: Option<usize>) -> int {
    match candidate {
        Some(w) => w as int,
        None => 0,
    }
}

/// A sequence of zero weights sums to zero.
pub proof fn lemma_sum_zero(s: Seq<usize>)
    requires
        forall|i: int| 0 <= i < s.len() ==> #[trigger] s[i] == 0,
    ensures
        sum_usize(s) == 0,
    decreases s.len(),
{
    if s.len() > 0 {
        lemma_sum_zero(s.drop_last());
    }
}

} // verus!
