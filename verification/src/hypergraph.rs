//! The hypergraph store: vertices with their incident nets and weights.
//!
//! Vertices are kept sorted by ascending id, so iteration order is
//! deterministic; nets are fixed in number at construction and grow by pin
//! insertion only.

use vstd::prelude::*;

use crate::graph::{strictly_increasing, Graph};

verus! {

/// A classified error of the hypergraph core.
#[derive(Debug, Clone, Copy, PartialEq, Eq, Structural)]
pub enum HgError {
    /// A pin referenced a net id outside the fixed net range.
    NetOutOfRange,
    /// A traversal or strategy was requested on a hypergraph whose vertex
    /// ids are not exactly the range starting at zero.
    InconsistentIndexing,
    /// A partition into zero blocks was requested.
    ZeroBlocks,
    /// A block count too large for balance bookkeeping was requested.
    TooManyBlocks,
}

/// A vertex: its incident net ids, in insertion order, and its weight.
#[derive(Debug, Clone)]
pub struct Vertex {
    /// The nets this vertex belongs to.
    pub nets: Vec<usize>,
    /// The weight of this vertex.
    pub weight: usize,
}

impl Vertex {
    /// Creates a vertex of the given weight belonging to no net.
    pub fn new(weight: usize) -> (r: Vertex)
        ensures
            r.nets@.len() == 0,
            r.weight == weight,
    {
        Vertex { nets: Vec::new(), weight }
    }
}

/// The default weight a vertex created by pin insertion receives.
pub open spec fn default_weight() -> usize {
    1
}

/// The concatenation of the member lists of the given nets, in order.
pub open spec fn concat_nets(nets: Seq<Vec<usize>>, incident: Seq<usize>) -> Seq<usize>
    decreases incident.len(),
{
    if incident.len() == 0 {
        Seq::empty()
    } else {
        concat_nets(nets, incident.drop_last()) + nets[incident.last() as int]@
    }
}

/// The sum of the weights of a vertex sequence.
pub open spec fn weight_sum(verts: Seq<Vertex>) -> int
    decreases verts.len(),
{
    if verts.len() == 0 {
        0
    } else {
        weight_sum(verts.drop_last()) + verts.last().weight
    }
}

/// A hypergraph: a sparse, id-sorted vertex store and a fixed set of nets.
pub struct Hypergraph {
    /// The vertex ids, in strictly ascending order.
    pub ids: Vec<usize>,
    /// The vertices, parallel to `ids`.
    pub verts: Vec<Vertex>,
    /// The member vertex ids of each net, in insertion order.
    pub nets: Vec<Vec<usize>>,
}

impl Hypergraph {
    /// The number of vertices.
    pub open spec fn len_spec(self) -> nat {
        self.ids@.len()
    }

    /// Whether the given vertex id is present.
    pub open spec fn has_vertex(self, v: usize) -> bool {
        self.ids@.contains(v)
    }

    /// The position of a present vertex id in the store.
    pub open spec fn index_of(self, v: usize) -> int {
        choose|i: int| 0 <= i < self.ids@.len() && self.ids@[i] == v
    }

    /// The incident net ids of a present vertex.
    pub open spec fn incident(self, v: usize) -> Seq<usize> {
        self.verts@[self.index_of(v)].nets@
    }

    /// Structural consistency: ids ascending and parallel to the vertices,
    /// incident net ids in range, net members present as vertices, and
    /// every vertex carrying the default weight.
    pub open spec fn wf(self) -> bool {
        &&& self.ids@.len() == self.verts@.len()
        &&& strictly_increasing(self.ids@)
        &&& forall|i: int, k: int|
            0 <= i < self.verts@.len() && 0 <= k < self.verts@[i].nets@.len()
                ==> #[trigger] self.verts@[i].nets@[k] < self.nets@.len()
        &&& forall|n: int, j: int|
            0 <= n < self.nets@.len() && 0 <= j < self.nets@[n]@.len() ==> self.ids@.contains(
                #[trigger] self.nets@[n]@[j],
            )
        &&& forall|i: int|
            0 <= i < self.verts@.len() ==> (#[trigger] self.verts@[i]).weight == default_weight()
    }

    /// The vertex ids are exactly the range starting at zero.
    pub open spec fn dense(self) -> bool {
        forall|i: int| 0 <= i < self.ids@.len() ==> #[trigger] self.ids@[i] == i
    }

    /// Creates an empty hypergraph with a fixed number of (empty) nets.
    ///
    /// It is not possible to add more nets later.
    pub fn new(num_nets: usize) -> (r: Hypergraph)
        ensures
            r.wf(),
            r.len_spec() == 0,
            r.nets@.len() == num_nets,
            forall|n: int| 0 <= n < num_nets ==> #[trigger] r.nets@[n]@.len() == 0,
    {
        let mut nets: Vec<Vec<usize>> = Vec::new();
        let mut n: usize = 0;
        while n < num_nets
            invariant
                0 <= n <= num_nets,
                nets@.len() == n,
                forall|k: int| 0 <= k < n ==> #[trigger] nets@[k]@.len() == 0,
            decreases num_nets - n,
        {
            nets.push(Vec::new());
            n += 1;
        }
        Hypergraph { ids: Vec::new(), verts: Vec::new(), nets }
    }

    /// The amount of vertices in the hypergraph.
    pub fn len(&self) -> (r: usize)
        ensures
            r == self.len_spec(),
    {
        self.ids.len()
    }

    /// Determines whether the hypergraph contains vertices.
    pub fn is_empty(&self) -> (r: bool)
        ensures
            r == (self.len_spec() == 0),
    {
        self.ids.len() == 0
    }

    /// Finds the position of a vertex id, or the position where it would be
    /// inserted to keep the ids ascending.
    fn find_index(&self, v: usize) -> (r: Result<usize, usize>)
        requires
            strictly_increasing(self.ids@),
        ensures
            match r {
                Ok(i) => i < self.ids@.len() && self.ids@[i as int] == v,
                Err(p) => {
                    &&& p <= self.ids@.len()
                    &&& !self.ids@.contains(v)
                    &&& forall|k: int| 0 <= k < p ==> #[trigger] self.ids@[k] < v
                    &&& forall|k: int| p <= k < self.ids@.len() ==> v < #[trigger] self.ids@[k]
                },
            },
    {
        let mut i: usize = 0;
        while i < self.ids.len()
            invariant
                0 <= i <= self.ids@.len(),
                strictly_increasing(self.ids@),
                forall|k: int| 0 <= k < i ==> #[trigger] self.ids@[k] < v,
            decreases self.ids@.len() - i,
        {
            if self.ids[i] == v {
                return Ok(i);
            }
            if self.ids[i] > v {
                proof {
                    assert forall|k: int| i <= k < self.ids@.len() implies v < #[trigger] self.ids@[k] by {
                        assert(self.ids@[i as int] <= self.ids@[k]);
                    }
                    if self.ids@.contains(v) {
                        let w = choose|w: int| 0 <= w < self.ids@.len() && self.ids@[w] == v;
                        assert(false);
                    }
                }
                return Err(i);
            }
            i += 1;
        }
        proof {
            if self.ids@.contains(v) {
                let w = choose|w: int| 0 <= w < self.ids@.len() && self.ids@[w] == v;
                assert(false);
            }
        }
        Err(i)
    }

    /// Adds a pin placing a vertex in a net, creating the vertex with the
    /// default weight when it is absent.  Fails if, and only if, the net id
    /// is out of range; the hypergraph is then left unchanged.
    pub fn add_pin(&mut self, net: usize, vertex: usize) -> (r: Result<(), HgError>)
        requires
            old(self).wf(),
        ensures
            final(self).nets@.len() == old(self).nets@.len(),
            match r {
                Ok(()) => {
                    &&& net < old(self).nets@.len()
                    &&& final(self).wf()
                    &&& final(self).nets@[net as int]@ == old(self).nets@[net as int]@.push(vertex)
                    &&& forall|n: int|
                        0 <= n < old(self).nets@.len() && n != net
                            ==> #[trigger] final(self).nets@[n]@ == old(self).nets@[n]@
                    &&& forall|x: usize|
                        final(self).has_vertex(x) <==> (old(self).has_vertex(x) || x == vertex)
                    &&& final(self).len_spec() == old(self).len_spec() + (if old(self).has_vertex(
                        vertex,
                    ) {
                        0int
                    } else {
                        1int
                    })
                    &&& final(self).incident(vertex) == (if old(self).has_vertex(vertex) {
                        old(self).incident(vertex).push(net)
                    } else {
                        seq![net]
                    })
                    &&& forall|x: usize|
                        old(self).has_vertex(x) && x != vertex ==> final(self).incident(x) == old(
                            self,
                        ).incident(x)
                },
                Err(e) => {
                    &&& e == HgError::NetOutOfRange
                    &&& net >= old(self).nets@.len()
                    &&& *final(self) == *old(self)
                },
            },
    {
        if net >= self.nets.len() {
            return Err(HgError::NetOutOfRange);
        }
        let ghost pre = *self;
        match self.find_index(vertex) {
            Ok(i) => {
                proof {
                    lemma_index_unique(pre.ids@, i as int, vertex);
                    assert(pre.has_vertex(vertex));
                    assert(pre.index_of(vertex) == i as int);
                }
                let vert = &mut self.verts[i];
                vert.nets.push(net);
                proof {
                    assert(self.ids@.contains(vertex));
                    lemma_index_unique(self.ids@, i as int, vertex);
                    assert(self.index_of(vertex) == i as int);
                    assert(self.incident(vertex) =~= pre.incident(vertex).push(net));
                    assert forall|x: usize| pre.has_vertex(x) && x != vertex implies self.incident(
                        x,
                    ) == pre.incident(x) by {
                        let ix = pre.index_of(x);
                        lemma_index_unique(pre.ids@, ix, x);
                        assert(self.index_of(x) == ix);
                        assert(ix != i as int);
                    }
                }
            },
            Err(p) => {
                self.ids.insert(p, vertex);
                self.verts.insert(p, Vertex::new(1));
                let vert = &mut self.verts[p];
                vert.nets.push(net);
                proof {
                    assert(self.ids@ == pre.ids@.insert(p as int, vertex));
                    assert forall|x: usize| self.ids@.contains(x) implies (pre.ids@.contains(x) || x
                        == vertex) by {
                        let k = choose|k: int| 0 <= k < self.ids@.len() && self.ids@[k] == x;
                        if k < p {
                            assert(pre.ids@[k] == x);
                        } else if k > p {
                            assert(pre.ids@[k - 1] == x);
                        }
                    }
                    assert forall|x: usize| pre.ids@.contains(x) implies self.ids@.contains(x) by {
                        let k = choose|k: int| 0 <= k < pre.ids@.len() && pre.ids@[k] == x;
                        if k < p {
                            assert(self.ids@[k] == x);
                        } else {
                            assert(self.ids@[k + 1] == x);
                        }
                    }
                    assert(self.ids@[p as int] == vertex);
                    assert(self.ids@.contains(vertex));
                    assert(strictly_increasing(self.ids@)) by {
                        assert forall|a: int, b: int|
                            0 <= a < b < self.ids@.len() implies self.ids@[a] < self.ids@[b] by {
                            if a < p && b < p {
                                assert(self.ids@[a] == pre.ids@[a]);
                                assert(self.ids@[b] == pre.ids@[b]);
                            } else if a < p && b == p {
                                assert(self.ids@[a] == pre.ids@[a]);
                            } else if a < p && b > p {
                                assert(self.ids@[a] == pre.ids@[a]);
                                assert(self.ids@[b] == pre.ids@[b - 1]);
                            } else if a == p && b > p {
                                assert(self.ids@[b] == pre.ids@[b - 1]);
                            } else {
                                assert(self.ids@[a] == pre.ids@[a - 1]);
                                assert(self.ids@[b] == pre.ids@[b - 1]);
                            }
                        }
                    }
                    lemma_index_unique(self.ids@, p as int, vertex);
                    assert(self.index_of(vertex) == p as int);
                    assert(self.incident(vertex) =~= seq![net]);
                    assert forall|x: usize| pre.has_vertex(x) && x != vertex implies self.incident(
                        x,
                    ) == pre.incident(x) by {
                        let ix = pre.index_of(x);
                        lemma_index_unique(pre.ids@, ix, x);
                        if ix < p {
                            assert(self.ids@[ix] == x);
                            lemma_index_unique(self.ids@, ix, x);
                            assert(self.verts@[ix] == pre.verts@[ix]);
                        } else {
                            assert(self.ids@[ix + 1] == x);
                            lemma_index_unique(self.ids@, ix + 1, x);
                            assert(self.verts@[ix + 1] == pre.verts@[ix]);
                        }
                    }
                }
            },
        }
        let ghost mid = *self;
        let netlist = &mut self.nets[net];
        netlist.push(vertex);
        proof {
            assert(self.ids@ == mid.ids@);
            assert(self.verts@ == mid.verts@);
            assert(self.nets@[net as int]@ == mid.nets@[net as int]@.push(vertex));
            assert forall|n: int, j: int|
                0 <= n < self.nets@.len() && 0 <= j < self.nets@[n]@.len() implies self.ids@.contains(
                #[trigger] self.nets@[n]@[j],
            ) by {
                if n != net || j < mid.nets@[n]@.len() {
                    assert(self.nets@[n]@[j] == mid.nets@[n]@[j]);
                    if pre.ids@.contains(mid.nets@[n]@[j]) {
                    }
                } else {
                    assert(self.nets@[n]@[j] == vertex);
                }
            }
        }
        Ok(())
    }

    /// All vertices adjacent to the specified one via any shared net, in
    /// net order, duplicates included.
    pub fn neighbors(&self, vertex: usize) -> (r: Vec<usize>)
        requires
            self.wf(),
            self.has_vertex(vertex),
        ensures
            r@ == concat_nets(self.nets@, self.incident(vertex)),
            forall|k: int| 0 <= k < r@.len() ==> self.has_vertex(#[trigger] r@[k]),
    {
        let i = match self.find_index(vertex) {
            Ok(i) => i,
            Err(_) => {
                proof {
                    assert(false);
                }
                0
            },
        };
        proof {
            lemma_index_unique(self.ids@, i as int, vertex);
            assert(self.index_of(vertex) == i as int);
        }
        let vert = &self.verts[i];
        let inc = vert.nets.len();
        let mut r: Vec<usize> = Vec::new();
        let mut k: usize = 0;
        while k < inc
            invariant
                0 <= k <= inc,
                self.wf(),
                0 <= i < self.verts@.len(),
                vert == &self.verts@[i as int],
                inc == vert.nets@.len(),
                r@ == concat_nets(self.nets@, vert.nets@.take(k as int)),
                forall|t: int| 0 <= t < r@.len() ==> self.ids@.contains(#[trigger] r@[t]),
            decreases inc - k,
        {
            let net = vert.nets[k];
            let members = &self.nets[net];
            let mut j: usize = 0;
            while j < members.len()
                invariant
                    0 <= j <= members@.len(),
                    self.wf(),
                    0 <= i < self.verts@.len(),
                    vert == &self.verts@[i as int],
                    inc == vert.nets@.len(),
                    0 <= k < inc,
                    net == vert.nets@[k as int],
                    net < self.nets@.len(),
                    members == &self.nets@[net as int],
                    r@ == concat_nets(self.nets@, vert.nets@.take(k as int)) + members@.take(
                        j as int,
                    ),
                    forall|t: int| 0 <= t < r@.len() ==> self.ids@.contains(#[trigger] r@[t]),
                decreases members@.len() - j,
            {
                r.push(members[j]);
                proof {
                    assert(members@.take(j + 1int) =~= members@.take(j as int).push(
                        members@[j as int],
                    ));
                }
                j += 1;
            }
            proof {
                assert(members@.take(members@.len() as int) =~= members@);
                assert(vert.nets@.take(k + 1int).drop_last() =~= vert.nets@.take(k as int));
                assert(vert.nets@.take(k + 1int).last() == net);
                assert(concat_nets(self.nets@, vert.nets@.take(k + 1int)) == concat_nets(
                    self.nets@,
                    vert.nets@.take(k as int),
                ) + self.nets@[net as int]@);
            }
            k += 1;
        }
        proof {
            assert(vert.nets@.take(inc as int) =~= vert.nets@);
        }
        r
    }

    /// The sum of all vertex weights.
    pub fn weight(&self) -> (r: usize)
        requires
            self.wf(),
        ensures
            r == weight_sum(self.verts@),
            r == self.len_spec(),
    {
        proof {
            lemma_uniform_weight_sum(self.verts@);
        }
        let mut sum: usize = 0;
        let mut i: usize = 0;
        while i < self.verts.len()
            invariant
                0 <= i <= self.verts@.len(),
                self.wf(),
                sum == weight_sum(self.verts@.take(i as int)),
                sum == i,
            decreases self.verts@.len() - i,
        {
            proof {
                assert(self.verts@.take(i + 1int).drop_last() =~= self.verts@.take(i as int));
                assert(self.verts@.take(i + 1int).last() == self.verts@[i as int]);
            }
            sum += self.verts[i].weight;
            i += 1;
        }
        proof {
            assert(self.verts@.take(self.verts@.len() as int) =~= self.verts@);
        }
        sum
    }

    /// Builds the partitioning hypergraph of an exchange-format graph: one
    /// pin per (vertex, net) pair of the graph.
    pub fn from_graph(g: &Graph) -> (r: Hypergraph)
        ensures
            r.wf(),
            r.nets@.len() == g.nets@.len(),
            forall|n: int| 0 <= n < g.nets@.len() ==> #[trigger] r.nets@[n]@ == g.nets@[n].0@,
            forall|x: usize|
                r.has_vertex(x) <==> exists|n: int|
                    0 <= n < g.nets@.len() && (#[trigger] g.nets@[n].0@).contains(x),
    {
        let mut r = Hypergraph::new(g.nets.len());
        let mut n: usize = 0;
        while n < g.nets.len()
            invariant
                0 <= n <= g.nets@.len(),
                r.wf(),
                r.nets@.len() == g.nets@.len(),
                forall|k: int| 0 <= k < n ==> #[trigger] r.nets@[k]@ == g.nets@[k].0@,
                forall|k: int| n <= k < g.nets@.len() ==> #[trigger] r.nets@[k]@.len() == 0,
                forall|x: usize|
                    r.has_vertex(x) <==> exists|k: int, j: int|
                        0 <= k < n && 0 <= j < g.nets@[k].0@.len() && #[trigger] g.nets@[k].0@[j]
                            == x,
            decreases g.nets@.len() - n,
        {
            let members = &g.nets[n].0;
            let mut j: usize = 0;
            while j < members.len()
                invariant
                    0 <= j <= members@.len(),
                    0 <= n < g.nets@.len(),
                    members == &g.nets@[n as int].0,
                    r.wf(),
                    r.nets@.len() == g.nets@.len(),
                    forall|k: int| 0 <= k < n ==> #[trigger] r.nets@[k]@ == g.nets@[k].0@,
                    forall|k: int| n < k < g.nets@.len() ==> #[trigger] r.nets@[k]@.len() == 0,
                    r.nets@[n as int]@ == g.nets@[n as int].0@.take(j as int),
                    forall|x: usize|
                        r.has_vertex(x) <==> exists|k: int, jj: int|
                            0 <= k < g.nets@.len() && 0 <= jj < g.nets@[k].0@.len() && (k < n || (k
                                == n && jj < j)) && #[trigger] g.nets@[k].0@[jj] == x,
                decreases members@.len() - j,
            {
                let v = members[j];
                let res = r.add_pin(n, v);
                proof {
                    assert(res is Ok);
                    assert(g.nets@[n as int].0@.take(j + 1int) =~= g.nets@[n as int].0@.take(
                        j as int,
                    ).push(v));
                }
                match res {
                    Ok(()) => (),
                    Err(_) => {
                        proof {
                            assert(false);
                        }
                    },
                }
                j += 1;
            }
            proof {
                assert(g.nets@[n as int].0@.take(members@.len() as int) =~= g.nets@[n as int].0@);
            }
            n += 1;
        }
        r
    }
}

/// In a strictly ascending id sequence, an id names one position only.
pub proof fn lemma_index_unique(ids: Seq<usize>, i: int, v: usize)
    requires
        strictly_increasing(ids),
        0 <= i < ids.len(),
        ids[i] == v,
    ensures
        forall|k: int| 0 <= k < ids.len() && ids[k] == v ==> k == i,
        (choose|k: int| 0 <= k < ids.len() && ids[k] == v) == i,
{
    assert forall|k: int| 0 <= k < ids.len() && ids[k] == v implies k == i by {
        if k < i {
            assert(ids[k] < ids[i]);
        }
        if k > i {
            assert(ids[i] < ids[k]);
        }
    }
}

/// Vertices of the default weight sum to their count.
proof fn lemma_uniform_weight_sum(verts: Seq<Vertex>)
    requires
        forall|i: int| 0 <= i < verts.len() ==> (#[trigger] verts[i]).weight == default_weight(),
    ensures
        weight_sum(verts) == verts.len(),
    decreases verts.len(),
{
    if verts.len() > 0 {
        lemma_uniform_weight_sum(verts.drop_last());
    }
}

} // verus!
