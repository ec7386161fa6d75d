//! Hypergraph traversal: one algorithm, parameterized by a frontier
//! collection whose removal policy decides between breadth-first and
//! depth-first order.

use vstd::prelude::*;

use std::collections::VecDeque;

use bitvec::vec::BitVec;

use crate::hypergraph::{HgError, Hypergraph};
use vstd::set_lib::{lemma_int_range, lemma_len_subset, lemma_subset_equality, set_int_range};

verus! {

/// An abstraction over collections usable as a search frontier, such as
/// stacks or queues.  The removal policy is the spec function
/// `take_index`: every removal takes the element at that position of the
/// contents, so the policy is fixed for each implementation.
pub trait SearchCollection: Sized {
    /// The values currently held, oldest first.
    spec fn contents(&self) -> Seq<usize>;

    /// The position a removal takes from the given contents.
    spec fn take_index(s: Seq<usize>) -> int;

    /// The removal position lies within non-empty contents.
    proof fn take_index_in_range(s: Seq<usize>)
        requires
            s.len() > 0,
        ensures
            0 <= Self::take_index(s) < s.len(),
    ;

    /// Creates a new collection.
    fn new() -> (r: Self)
        ensures
            r.contents().len() == 0,
    ;

    /// Creates a new collection with a pre-allocated capacity.
    fn with_capacity(capacity: usize) -> (r: Self)
        ensures
            r.contents().len() == 0,
    ;

    /// Checks whether this collection is empty.
    fn is_empty(&self) -> (r: bool)
        ensures
            r == (self.contents().len() == 0),
    ;

    /// Removes and returns the element at the policy's position.
    fn get(&mut self) -> (r: Option<usize>)
        ensures
            match r {
                Some(x) => {
                    &&& old(self).contents().len() > 0
                    &&& x == old(self).contents()[Self::take_index(old(self).contents())]
                    &&& final(self).contents() == old(self).contents().remove(
                        Self::take_index(old(self).contents()),
                    )
                },
                None => {
                    &&& old(self).contents().len() == 0
                    &&& final(self).contents() == old(self).contents()
                },
            },
    ;

    /// Puts an element into the collection.
    fn put(&mut self, value: usize)
        ensures
            final(self).contents() == old(self).contents().push(value),
    ;
}

/// A stack frontier: removal takes the newest element, giving depth-first
/// order.
impl SearchCollection for Vec<usize> {
    open spec fn contents(&self) -> Seq<usize> {
        self@
    }

    /// The newest element leaves first.
    open spec fn take_index(s: Seq<usize>) -> int {
        s.len() - 1
    }

    proof fn take_index_in_range(s: Seq<usize>) {
    }

    fn new() -> (r: Self)
        ensures
            r.contents().len() == 0,
    {
        Vec::new()
    }

    fn with_capacity(capacity: usize) -> (r: Self)
        ensures
            r.contents().len() == 0,
    {
        Vec::with_capacity(capacity)
    }

    fn is_empty(&self) -> (r: bool)
        ensures
            r == (self.contents().len() == 0),
    {
        self.len() == 0
    }

    fn get(&mut self) -> (r: Option<usize>)
        ensures
            match r {
                Some(x) => {
                    &&& old(self).contents().len() > 0
                    &&& x == old(self).contents()[Self::take_index(old(self).contents())]
                    &&& final(self).contents() == old(self).contents().remove(
                        Self::take_index(old(self).contents()),
                    )
                },
                None => {
                    &&& old(self).contents().len() == 0
                    &&& final(self).contents() == old(self).contents()
                },
            },
    {
        if self.len() == 0 {
            return None;
        }
        let x = self.pop().unwrap();
        proof {
            let n = old(self)@.len() as int;
            assert(final(self)@ =~= old(self)@.remove(n - 1));
            assert(old(self)@[n - 1] == x);
        }
        Some(x)
    }

    fn put(&mut self, value: usize)
        ensures
            final(self).contents() == old(self).contents().push(value),
    {
        self.push(value);
    }
}

/// A queue frontier: removal takes the oldest element, giving
/// breadth-first order.
impl SearchCollection for VecDeque<usize> {
    open spec fn contents(&self) -> Seq<usize> {
        self@
    }

    /// The oldest element leaves first.
    open spec fn take_index(s: Seq<usize>) -> int {
        0
    }

    proof fn take_index_in_range(s: Seq<usize>) {
    }

    fn new() -> (r: Self)
        ensures
            r.contents().len() == 0,
    {
        VecDeque::new()
    }

    fn with_capacity(capacity: usize) -> (r: Self)
        ensures
            r.contents().len() == 0,
    {
        VecDeque::with_capacity(capacity)
    }

    fn is_empty(&self) -> (r: bool)
        ensures
            r == (self.contents().len() == 0),
    {
        self.len() == 0
    }

    fn get(&mut self) -> (r: Option<usize>)
        ensures
            match r {
                Some(x) => {
                    &&& old(self).contents().len() > 0
                    &&& x == old(self).contents()[Self::take_index(old(self).contents())]
                    &&& final(self).contents() == old(self).contents().remove(
                        Self::take_index(old(self).contents()),
                    )
                },
                None => {
                    &&& old(self).contents().len() == 0
                    &&& final(self).contents() == old(self).contents()
                },
            },
    {
        if self.len() == 0 {
            return None;
        }
        let x = self.pop_front().unwrap();
        proof {
            assert(final(self)@ =~= old(self)@.remove(0));
            assert(old(self)@[0] == x);
        }
        Some(x)
    }

    fn put(&mut self, value: usize)
        ensures
            final(self).contents() == old(self).contents().push(value),
    {
        self.push_back(value);
    }
}

/// Markers for the vertices already put into the frontier, kept in a
/// compact bit vector of an outside crate.
#[verifier::external_body]
pub struct SeenMarks {
    bits: BitVec,
}

/// The marks the bit vector holds, one per vertex.
pub uninterp spec fn seen_bits(s: &SeenMarks) -> Seq<bool>;

impl SeenMarks {
    /// Relies on bitvec::vec::BitVec::repeat: a vector of `len` cleared bits.
    #[verifier::external_body]
    pub fn new(len: usize) -> (r: SeenMarks)
        ensures
            seen_bits(&r).len() == len,
            forall|i: int| 0 <= i < len ==> !seen_bits(&r)[i],
    {
        SeenMarks { bits: BitVec::repeat(false, len) }
    }

    /// Relies on bitvec's indexing: returns the bit at `i`.
    #[verifier::external_body]
    pub fn seen(&self, i: usize) -> (r: bool)
        requires
            i < seen_bits(self).len(),
        ensures
            r == seen_bits(self)[i as int],
    {
        self.bits[i]
    }

    /// Relies on bitvec::vec::BitVec::set: sets the bit at `i`.
    #[verifier::external_body]
    pub fn mark(&mut self, i: usize)
        requires
            i < seen_bits(old(self)).len(),
        ensures
            seen_bits(final(self)) == seen_bits(old(self)).update(i as int, true),
    {
        self.bits.set(i, true);
    }
}

/// A total visitation order: every vertex of the hypergraph exactly once.
pub open spec fn is_traversal_of(g: Hypergraph, order: Seq<usize>) -> bool {
    &&& order.no_duplicates()
    &&& order.len() == g.len_spec()
    &&& forall|v: usize| #[trigger] order.contains(v) <==> g.has_vertex(v)
}

/// A duplicate-free sequence of vertex ids below `n` has at most `n`
/// entries.
pub proof fn lemma_nodup_bound(s: Seq<usize>, n: nat)
    requires
        s.no_duplicates(),
        forall|k: int| 0 <= k < s.len() ==> #[trigger] s[k] < n,
    ensures
        s.len() <= n,
{
    let si = s.map_values(|x: usize| x as int);
    assert(si.no_duplicates()) by {
        assert forall|i: int, j: int| 0 <= i < j < si.len() implies si[i] != si[j] by {
            assert(s[i] != s[j]);
        }
    }
    si.unique_seq_to_set();
    assert(si.to_set().subset_of(set_int_range(0, n as int))) by {
        assert forall|x: int| si.to_set().contains(x) implies set_int_range(
            0,
            n as int,
        ).contains(x) by {
            let k = choose|k: int| 0 <= k < si.len() && si[k] == x;
            assert(s[k] < n);
        }
    }
    lemma_int_range(0, n as int);
    lemma_len_subset(si.to_set(), set_int_range(0, n as int));
}

/// A duplicate-free sequence of `n` vertex ids below `n` holds every one
/// of them.
pub proof fn lemma_nodup_complete(s: Seq<usize>, n: nat)
    requires
        s.no_duplicates(),
        s.len() == n,
        forall|k: int| 0 <= k < s.len() ==> #[trigger] s[k] < n,
    ensures
        forall|v: usize| v < n ==> #[trigger] s.contains(v),
{
    let si = s.map_values(|x: usize| x as int);
    assert(si.no_duplicates()) by {
        assert forall|i: int, j: int| 0 <= i < j < si.len() implies si[i] != si[j] by {
            assert(s[i] != s[j]);
        }
    }
    si.unique_seq_to_set();
    assert(si.to_set().subset_of(set_int_range(0, n as int))) by {
        assert forall|x: int| si.to_set().contains(x) implies set_int_range(
            0,
            n as int,
        ).contains(x) by {
            let k = choose|k: int| 0 <= k < si.len() && si[k] == x;
            assert(s[k] < n);
        }
    }
    lemma_int_range(0, n as int);
    lemma_subset_equality(si.to_set(), set_int_range(0, n as int));
    assert forall|v: usize| v < n implies #[trigger] s.contains(v) by {
        assert(set_int_range(0, n as int).contains(v as int));
        assert(si.to_set().contains(v as int));
        let k = choose|k: int| 0 <= k < si.len() && si[k] == v as int;
        assert(s[k] == v);
    }
}

/// Appending a fresh value keeps a sequence duplicate-free and adds just
/// that value to its members.
proof fn lemma_nodup_push(s: Seq<usize>, x: usize)
    requires
        s.no_duplicates(),
        !s.contains(x),
    ensures
        s.push(x).no_duplicates(),
        forall|y: usize| #[trigger] s.push(x).contains(y) <==> (s.contains(y) || y == x),
{
    let t = s.push(x);
    assert forall|i: int, j: int| 0 <= i < j < t.len() implies t[i] != t[j] by {
        if j < s.len() {
            assert(s[i] != s[j]);
        } else {
            if s[i] == x {
                assert(s.contains(x));
            }
        }
    }
    assert forall|y: usize| #[trigger] t.contains(y) implies (s.contains(y) || y == x) by {
        let k = choose|k: int| 0 <= k < t.len() && t[k] == y;
        if k < s.len() {
            assert(s[k] == y);
        }
    }
    assert forall|y: usize| s.contains(y) implies t.contains(y) by {
        let k = choose|k: int| 0 <= k < s.len() && s[k] == y;
        assert(t[k] == y);
    }
    assert(t[t.len() - 1] == x);
    assert(t.contains(x));
}

/// Two disjoint duplicate-free sequences concatenate to a duplicate-free
/// sequence.
proof fn lemma_nodup_concat(a: Seq<usize>, b: Seq<usize>)
    requires
        a.no_duplicates(),
        b.no_duplicates(),
        forall|x: usize| a.contains(x) ==> !b.contains(x),
    ensures
        (a + b).no_duplicates(),
{
    let t = a + b;
    assert forall|i: int, j: int| 0 <= i < j < t.len() implies t[i] != t[j] by {
        if i < a.len() && j < a.len() {
            assert(a[i] != a[j]);
        } else if i >= a.len() {
            assert(b[i - a.len()] != b[j - a.len()]);
        } else {
            assert(t[i] == a[i]);
            assert(t[j] == b[j - a.len()]);
            if a[i] == b[j - a.len()] {
                assert(a.contains(a[i]));
                assert(b.contains(a[i]));
            }
        }
    }
}

/// Removing one entry of a duplicate-free sequence removes that value and
/// nothing else.
proof fn lemma_nodup_remove(s: Seq<usize>, i: int)
    requires
        s.no_duplicates(),
        0 <= i < s.len(),
    ensures
        s.remove(i).no_duplicates(),
        forall|x: usize| #[trigger] s.remove(i).contains(x) <==> (s.contains(x) && x != s[i]),
{
    let t = s.remove(i);
    assert forall|x: usize| #[trigger] t.contains(x) implies (s.contains(x) && x != s[i]) by {
        let k = choose|k: int| 0 <= k < t.len() && t[k] == x;
        if k < i {
            assert(s[k] == x);
        } else {
            assert(s[k + 1] == x);
        }
    }
    assert forall|x: usize| s.contains(x) && x != s[i] implies #[trigger] t.contains(x) by {
        let k = choose|k: int| 0 <= k < s.len() && s[k] == x;
        if k < i {
            assert(t[k] == x);
        } else {
            assert(k > i);
            assert(t[k - 1] == x);
        }
    }
}

/// The neighbor list a visit expands: the member lists of the vertex's
/// incident nets, concatenated in net order.
pub open spec fn neighbors_of(g: Hypergraph, v: usize) -> Seq<usize> {
    crate::hypergraph::concat_nets(g.nets@, g.incident(v))
}

/// The first unseen vertex at or after `from`, or the mark count when
/// every vertex from `from` on is seen.
pub open spec fn first_unseen(seen: Seq<bool>, from: nat) -> nat
    decreases seen.len() - from,
{
    if from >= seen.len() {
        from
    } else if !seen[from as int] {
        from
    } else {
        first_unseen(seen, from + 1)
    }
}

/// One expansion step: walking the neighbor list in order, every vertex
/// not yet seen is marked and enters the frontier.
pub open spec fn absorb(seen: Seq<bool>, frontier: Seq<usize>, nbrs: Seq<usize>) -> (
    Seq<bool>,
    Seq<usize>,
)
    decreases nbrs.len(),
{
    if nbrs.len() == 0 {
        (seen, frontier)
    } else {
        let v = nbrs[0];
        if v < seen.len() && !seen[v as int] {
            absorb(seen.update(v as int, true), frontier.push(v), nbrs.drop_first())
        } else {
            absorb(seen, frontier, nbrs.drop_first())
        }
    }
}

/// The rest of the visitation order from a traversal state: an empty
/// frontier is reseeded with the lowest unseen vertex, then the policy's
/// element is visited and its unseen neighbors enter the frontier.
pub open spec fn traversal_rec<C: SearchCollection>(
    g: Hypergraph,
    seen: Seq<bool>,
    frontier: Seq<usize>,
    last_root: nat,
    remaining: nat,
) -> Seq<usize>
    decreases remaining,
{
    if remaining == 0 {
        Seq::empty()
    } else if frontier.len() == 0 {
        let root = first_unseen(seen, last_root);
        if root >= seen.len() {
            Seq::empty()
        } else {
            let seen1 = seen.update(root as int, true);
            let f1 = seq![root as usize];
            let i = C::take_index(f1);
            let current = f1[i];
            let st = absorb(seen1, f1.remove(i), neighbors_of(g, current));
            seq![current] + traversal_rec::<C>(g, st.0, st.1, root, (remaining - 1) as nat)
        }
    } else {
        let i = C::take_index(frontier);
        let current = frontier[i];
        let st = absorb(seen, frontier.remove(i), neighbors_of(g, current));
        seq![current] + traversal_rec::<C>(g, st.0, st.1, last_root, (remaining - 1) as nat)
    }
}

/// The policy's visitation order of a hypergraph with dense vertex ids:
/// vertex zero seeds the frontier, expansion follows the frontier policy,
/// and a disconnected part is reseeded at its lowest unvisited id, so
/// components come in ascending order of their lowest vertex id.  The
/// order is a function of the hypergraph and the policy alone.
pub open spec fn traversal_order<C: SearchCollection>(g: Hypergraph) -> Seq<usize> {
    if g.len_spec() == 0 {
        Seq::empty()
    } else {
        traversal_rec::<C>(
            g,
            Seq::new(g.len_spec(), |i: int| false).update(0, true),
            seq![0usize],
            0,
            g.len_spec(),
        )
    }
}

/// The first unseen vertex is the one every earlier candidate is seen
/// before.
proof fn lemma_first_unseen_at(seen: Seq<bool>, from: nat, r: nat)
    requires
        from <= r < seen.len(),
        !seen[r as int],
        forall|j: int| from <= j < r ==> seen[j],
    ensures
        first_unseen(seen, from) == r,
    decreases r - from,
{
    if from < r {
        assert(seen[from as int]);
        lemma_first_unseen_at(seen, from + 1, r);
    }
}

/// Expansion splits over a split neighbor list.
proof fn lemma_absorb_concat(seen: Seq<bool>, frontier: Seq<usize>, a: Seq<usize>, b: Seq<usize>)
    ensures
        absorb(seen, frontier, a + b) == absorb(
            absorb(seen, frontier, a).0,
            absorb(seen, frontier, a).1,
            b,
        ),
    decreases a.len(),
{
    if a.len() == 0 {
        assert(a + b =~= b);
    } else {
        let v = a[0];
        assert((a + b)[0] == v);
        assert((a + b).drop_first() =~= a.drop_first() + b);
        if v < seen.len() && !seen[v as int] {
            lemma_absorb_concat(seen.update(v as int, true), frontier.push(v), a.drop_first(), b);
        } else {
            lemma_absorb_concat(seen, frontier, a.drop_first(), b);
        }
    }
}

/// Scans forward from `from` for the first vertex that is not yet marked.
fn find_unvisited(seen: &SeenMarks, from: usize) -> (r: usize)
    requires
        seen_bits(seen).len() <= usize::MAX,
        from <= seen_bits(seen).len(),
        forall|j: int| 0 <= j < from ==> seen_bits(seen)[j],
        exists|u: int| 0 <= u < seen_bits(seen).len() && !seen_bits(seen)[u],
    ensures
        from <= r < seen_bits(seen).len(),
        !seen_bits(seen)[r as int],
        forall|j: int| 0 <= j < r ==> seen_bits(seen)[j],
        r as nat == first_unseen(seen_bits(seen), from as nat),
{
    let mut i: usize = from;
    loop
        invariant
            seen_bits(seen).len() <= usize::MAX,
            from <= i <= seen_bits(seen).len(),
            forall|j: int| 0 <= j < i ==> seen_bits(seen)[j],
            exists|u: int| 0 <= u < seen_bits(seen).len() && !seen_bits(seen)[u],
        decreases seen_bits(seen).len() - i,
    {
        proof {
            if i == seen_bits(seen).len() {
                let u = choose|u: int| 0 <= u < seen_bits(seen).len() && !seen_bits(seen)[u];
                assert(seen_bits(seen)[u]);
                assert(false);
            }
        }
        if !seen.seen(i) {
            proof {
                lemma_first_unseen_at(seen_bits(seen), from as nat, i as nat);
            }
            return i;
        }
        i += 1;
    }
}

impl Hypergraph {
    /// Checks whether the vertex ids are exactly the range starting at
    /// zero, as the traversal's seen-set requires.
    pub fn is_dense(&self) -> (r: bool)
        requires
            self.wf(),
        ensures
            r == self.dense(),
    {
        let mut i: usize = 0;
        while i < self.ids.len()
            invariant
                0 <= i <= self.ids@.len(),
                forall|k: int| 0 <= k < i ==> #[trigger] self.ids@[k] == k,
            decreases self.ids@.len() - i,
        {
            if self.ids[i] != i {
                return false;
            }
            i += 1;
        }
        true
    }

    /// Visits every vertex exactly once: vertices reachable from the
    /// current frontier first, then, for a disconnected hypergraph, the
    /// unvisited vertex of lowest id seeds the frontier again.
    ///
    /// Fails if, and only if, the vertex ids are not exactly the range
    /// starting at zero.
    pub fn traverse<C: SearchCollection>(&self) -> (r: Result<Vec<usize>, HgError>)
        requires
            self.wf(),
        ensures
            match r {
                Ok(order) => {
                    &&& self.dense()
                    &&& is_traversal_of(*self, order@)
                    &&& order@ == traversal_order::<C>(*self)
                },
                Err(e) => e == HgError::InconsistentIndexing && !self.dense(),
            },
    {
        if !self.is_dense() {
            return Err(HgError::InconsistentIndexing);
        }
        let n = self.len();
        let mut order: Vec<usize> = Vec::new();
        if n == 0 {
            proof {
                assert forall|v: usize| !self.has_vertex(v) by {
                    if self.ids@.contains(v) {
                        let k = choose|k: int| 0 <= k < self.ids@.len() && self.ids@[k] == v;
                        assert(false);
                    }
                }
            }
            return Ok(order);
        }
        let mut seen = SeenMarks::new(n);
        let mut frontier = C::new();
        frontier.put(0);
        seen.mark(0);
        let mut last_root: usize = 0;
        proof {
            assert(frontier.contents() =~= seq![0usize]);
            assert forall|v: usize|
                v < n implies (seen_bits(&seen)[v as int] <==> (order@.contains(v)
                || frontier.contents().contains(v))) by {
                if order@.contains(v) {
                    let k = choose|k: int| 0 <= k < order@.len() && order@[k] == v;
                    assert(false);
                }
                if v == 0 {
                    assert(frontier.contents()[0] == 0usize);
                    assert(frontier.contents().contains(0usize));
                } else {
                    if frontier.contents().contains(v) {
                        let k = choose|k: int|
                            0 <= k < frontier.contents().len() && frontier.contents()[k] == v;
                        assert(false);
                    }
                }
            }
            assert(seen_bits(&seen) =~= Seq::new(n as nat, |i: int| false).update(0, true));
            assert(traversal_order::<C>(*self) == traversal_rec::<C>(
                *self,
                seen_bits(&seen),
                frontier.contents(),
                0,
                n as nat,
            ));
            assert(order@ + traversal_rec::<C>(
                *self,
                seen_bits(&seen),
                frontier.contents(),
                0,
                n as nat,
            ) =~= traversal_rec::<C>(*self, seen_bits(&seen), frontier.contents(), 0, n as nat));
        }
        while order.len() < n
            invariant
                self.wf(),
                self.dense(),
                n == self.len_spec(),
                n > 0,
                seen_bits(&seen).len() == n,
                order@.no_duplicates(),
                frontier.contents().no_duplicates(),
                forall|k: int| 0 <= k < order@.len() ==> #[trigger] order@[k] < n,
                forall|k: int| 0 <= k < frontier.contents().len() ==> #[trigger] frontier.contents()[k] < n,
                forall|x: usize| order@.contains(x) ==> !frontier.contents().contains(x),
                forall|v: usize|
                    v < n ==> (seen_bits(&seen)[v as int] <==> (order@.contains(v)
                        || frontier.contents().contains(v))),
                order@.len() + frontier.contents().len() <= n,
                last_root < n,
                forall|j: int| 0 <= j < last_root ==> seen_bits(&seen)[j],
                traversal_order::<C>(*self) == order@ + traversal_rec::<C>(
                    *self,
                    seen_bits(&seen),
                    frontier.contents(),
                    last_root as nat,
                    (n - order@.len()) as nat,
                ),
            decreases n - order@.len(),
        {
            let ghost s_top = seen_bits(&seen);
            let ghost f_top = frontier.contents();
            let ghost lr_top = last_root as nat;
            let ghost rem = (n - order@.len()) as nat;
            if frontier.is_empty() {
                proof {
                    assert(exists|u: int| 0 <= u < n && !seen_bits(&seen)[u]) by {
                        assert(order@.len() < n);
                        lemma_nodup_complete_contrapositive(order@, n as nat);
                        let v = choose|v: usize| v < n && !order@.contains(v);
                        assert(!seen_bits(&seen)[v as int]);
                    }
                }
                let root = find_unvisited(&seen, last_root);
                proof {
                    assert(!order@.contains(root));
                    assert(!frontier.contents().contains(root));
                    lemma_nodup_push(order@, root);
                    lemma_nodup_bound(order@.push(root), n as nat);
                }
                let ghost empty_f = frontier.contents();
                frontier.put(root);
                seen.mark(root);
                last_root = root;
                proof {
                    lemma_nodup_push(empty_f, root);
                    assert(root as nat == first_unseen(s_top, lr_top));
                    assert(frontier.contents() =~= seq![root]);
                    assert(seen_bits(&seen) == s_top.update(root as int, true));
                }
            }
            let ghost pre_frontier = frontier.contents();
            let current = match frontier.get() {
                Some(x) => x,
                None => {
                    proof {
                        assert(false);
                    }
                    0
                },
            };
            proof {
                let i = C::take_index(pre_frontier);
                C::take_index_in_range(pre_frontier);
                lemma_nodup_remove(pre_frontier, i);
                assert(pre_frontier.contains(current)) by {
                    assert(pre_frontier[i] == current);
                }
                assert(!order@.contains(current));
                assert(current < n);
            }
            let ghost pre_order = order@;
            order.push(current);
            proof {
                lemma_nodup_push(pre_order, current);
                assert(self.has_vertex(current)) by {
                    assert(self.ids@[current as int] == current);
                }
            }
            let ghost s0 = seen_bits(&seen);
            let ghost f0 = frontier.contents();
            let nbrs = self.neighbors(current);
            proof {
                assert(nbrs@ == neighbors_of(*self, current));
                assert(nbrs@.take(0) =~= Seq::<usize>::empty());
            }
            let mut t: usize = 0;
            while t < nbrs.len()
                invariant
                    seen_bits(&seen) == absorb(s0, f0, nbrs@.take(t as int)).0,
                    frontier.contents() == absorb(s0, f0, nbrs@.take(t as int)).1,
                    self.wf(),
                    self.dense(),
                    n == self.len_spec(),
                    n > 0,
                    seen_bits(&seen).len() == n,
                    order@.no_duplicates(),
                    frontier.contents().no_duplicates(),
                    forall|k: int| 0 <= k < order@.len() ==> #[trigger] order@[k] < n,
                    forall|k: int|
                        0 <= k < frontier.contents().len() ==> #[trigger] frontier.contents()[k]
                            < n,
                    forall|x: usize| order@.contains(x) ==> !frontier.contents().contains(x),
                    forall|v: usize|
                        v < n ==> (seen_bits(&seen)[v as int] <==> (order@.contains(v)
                            || frontier.contents().contains(v))),
                    order@.len() + frontier.contents().len() <= n,
                    0 <= t <= nbrs@.len(),
                    forall|k: int| 0 <= k < nbrs@.len() ==> self.has_vertex(#[trigger] nbrs@[k]),
                    last_root < n,
                    forall|j: int| 0 <= j < last_root ==> seen_bits(&seen)[j],
                decreases nbrs@.len() - t,
            {
                let nb = nbrs[t];
                proof {
                    assert(self.has_vertex(nb));
                    let k = choose|k: int| 0 <= k < self.ids@.len() && self.ids@[k] == nb;
                    assert(self.ids@[k] == k);
                    assert(nb < n);
                }
                let ghost s_before = seen_bits(&seen);
                let ghost f_before = frontier.contents();
                if !seen.seen(nb) {
                    let ghost old_f = frontier.contents();
                    proof {
                        assert(!order@.contains(nb));
                        assert(!old_f.contains(nb));
                        lemma_nodup_push(old_f, nb);
                        lemma_nodup_concat(order@, old_f.push(nb));
                        assert forall|k: int|
                            0 <= k < (order@ + old_f.push(nb)).len() implies #[trigger] (order@
                            + old_f.push(nb))[k] < n by {
                            if k < order@.len() {
                            } else if k < (order@ + old_f.push(nb)).len() - 1 {
                                assert((order@ + old_f.push(nb))[k] == old_f[k - order@.len()]);
                            }
                        }
                        lemma_nodup_bound(order@ + old_f.push(nb), n as nat);
                    }
                    seen.mark(nb);
                    frontier.put(nb);
                }
                proof {
                    assert(nbrs@.take(t + 1) =~= nbrs@.take(t as int) + seq![nb]);
                    lemma_absorb_concat(s0, f0, nbrs@.take(t as int), seq![nb]);
                    assert(seq![nb].drop_first() =~= Seq::<usize>::empty());
                    assert(seen_bits(&seen) == absorb(s0, f0, nbrs@.take(t + 1)).0
                        && frontier.contents() == absorb(s0, f0, nbrs@.take(t + 1)).1) by {
                        assert(absorb(s0, f0, nbrs@.take(t + 1)) == absorb(
                            s_before,
                            f_before,
                            seq![nb],
                        ));
                        assert(seq![nb][0] == nb);
                        if nb < s_before.len() && !s_before[nb as int] {
                            assert(absorb(s_before, f_before, seq![nb]) == absorb(
                                s_before.update(nb as int, true),
                                f_before.push(nb),
                                Seq::<usize>::empty(),
                            ));
                        } else {
                            assert(absorb(s_before, f_before, seq![nb]) == absorb(
                                s_before,
                                f_before,
                                Seq::<usize>::empty(),
                            ));
                        }
                    }
                }
                t += 1;
            }
            proof {
                assert(nbrs@.take(nbrs@.len() as int) =~= nbrs@);
                let st = absorb(s0, f0, neighbors_of(*self, current));
                assert(seen_bits(&seen) == st.0 && frontier.contents() == st.1);
                assert(traversal_rec::<C>(*self, s_top, f_top, lr_top, rem) == seq![current]
                    + traversal_rec::<C>(
                    *self,
                    st.0,
                    st.1,
                    last_root as nat,
                    (rem - 1) as nat,
                )) by {
                    if f_top.len() == 0 {
                        assert(first_unseen(s_top, lr_top) == last_root as nat);
                        assert((last_root as nat) < s_top.len());
                        assert(pre_frontier =~= seq![last_root as usize]);
                        assert(s0 == s_top.update(last_root as int, true));
                        assert(f0 == pre_frontier.remove(C::take_index(pre_frontier)));
                    } else {
                        assert(pre_frontier == f_top);
                        assert(s0 == s_top);
                        assert(f0 == f_top.remove(C::take_index(f_top)));
                    }
                }
                assert(order@ =~= pre_order.push(current));
                assert(pre_order + (seq![current] + traversal_rec::<C>(
                    *self,
                    st.0,
                    st.1,
                    last_root as nat,
                    (rem - 1) as nat,
                )) =~= order@ + traversal_rec::<C>(
                    *self,
                    st.0,
                    st.1,
                    last_root as nat,
                    (rem - 1) as nat,
                ));
            }
        }
        proof {
            lemma_nodup_complete(order@, n as nat);
            assert forall|v: usize| #[trigger] order@.contains(v) implies self.has_vertex(v) by {
                let k = choose|k: int| 0 <= k < order@.len() && order@[k] == v;
                assert(order@[k] < n);
                assert(self.ids@[v as int] == v);
            }
            assert forall|v: usize| self.has_vertex(v) implies order@.contains(v) by {
                let k = choose|k: int| 0 <= k < self.ids@.len() && self.ids@[k] == v;
                assert(self.ids@[k] == k);
                assert(v < n);
            }
        }
        Ok(order)
    }

    /// The vertices in breadth-first order: a queue frontier.
    pub fn bfs(&self) -> (r: Result<Vec<usize>, HgError>)
        requires
            self.wf(),
        ensures
            match r {
                Ok(order) => {
                    &&& self.dense()
                    &&& is_traversal_of(*self, order@)
                    &&& order@ == traversal_order::<VecDeque<usize>>(*self)
                },
                Err(e) => e == HgError::InconsistentIndexing && !self.dense(),
            },
    {
        self.traverse::<VecDeque<usize>>()
    }

    /// The vertices in depth-first order: a stack frontier.
    pub fn dfs(&self) -> (r: Result<Vec<usize>, HgError>)
        requires
            self.wf(),
        ensures
            match r {
                Ok(order) => {
                    &&& self.dense()
                    &&& is_traversal_of(*self, order@)
                    &&& order@ == traversal_order::<Vec<usize>>(*self)
                },
                Err(e) => e == HgError::InconsistentIndexing && !self.dense(),
            },
    {
        self.traverse::<Vec<usize>>()
    }
}

/// When a duplicate-free sequence of vertex ids below `n` is shorter than
/// `n`, some vertex id below `n` is missing.
proof fn lemma_nodup_complete_contrapositive(s: Seq<usize>, n: nat)
    requires
        s.no_duplicates(),
        s.len() < n,
        n <= usize::MAX,
        forall|k: int| 0 <= k < s.len() ==> #[trigger] s[k] < n,
    ensures
        exists|v: usize| v < n && !s.contains(v),
{
    let si = s.map_values(|x: usize| x as int);
    assert(si.no_duplicates()) by {
        assert forall|i: int, j: int| 0 <= i < j < si.len() implies si[i] != si[j] by {
            assert(s[i] != s[j]);
        }
    }
    si.unique_seq_to_set();
    lemma_int_range(0, n as int);
    if forall|v: usize| v < n ==> #[trigger] s.contains(v) {
        assert(set_int_range(0, n as int).subset_of(si.to_set())) by {
            assert forall|x: int| set_int_range(0, n as int).contains(x) implies si.to_set().contains(
                x,
            ) by {
                let xv = x as usize;
                assert(s.contains(xv));
                let k = choose|k: int| 0 <= k < s.len() && s[k] == xv;
                assert(si[k] == x);
                assert(si.to_set().contains(si[k]));
            }
        }
        lemma_len_subset(set_int_range(0, n as int), si.to_set());
        assert(false);
    }
}

} // verus!
