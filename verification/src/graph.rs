//! The hypergraph exchange structure: a header, nets and optional weights.

use vstd::prelude::*;

use crate::format::{lemma_format_dual_involutive, Format};

verus! {

/// Weight of a net or a vertex in the exchange representation.
pub type Weight = u16;

/// A collection of vertices.
#[derive(Debug, Default, Clone, PartialEq, Eq)]
pub struct Net(pub Vec<usize>);

impl Net {
    /// The vertices of this net.
    pub fn iter(&self) -> (r: &Vec<usize>)
        ensures
            r@ == self.0@,
    {
        &self.0
    }

    /// Checks whether this net contains no vertices.
    pub fn is_empty(&self) -> (r: bool)
        ensures
            r == (self.0@.len() == 0),
    {
        self.0.len() == 0
    }
}

/// The header of a hypergraph file describing the graph following it.
#[derive(Debug, Clone, Copy, PartialEq, Eq, Structural)]
pub struct Header {
    /// The number of nets in the hypergraph.
    pub num_nets: usize,
    /// The total number of vertices in the hypergraph.
    pub num_vertices: usize,
    /// The type of hypergraph in regard to it having net and/or vertex weights.
    pub format: Format,
    /// Whether vertex numbering starts at one rather than zero.
    pub one_indexed: bool,
}

/// A hypergraph structure.
#[derive(Debug, Clone, PartialEq, Eq)]
pub struct Graph {
    /// Information on the type of hypergraph.
    pub header: Header,
    /// The nets of the hypergraph.
    pub nets: Vec<Net>,
    /// The weight for vertices.
    pub vertex_weights: Vec<Weight>,
    /// The weight for nets.
    pub net_weights: Vec<Weight>,
}

/// A sequence of vertex ids in strictly ascending order.
pub open spec fn strictly_increasing(s: Seq<usize>) -> bool {
    forall|i: int, j: int| 0 <= i < j < s.len() ==> s[i] < s[j]
}

/// The pins of one net: one (vertex, net) pair per member vertex.
pub open spec fn net_pins(net: Net, index: usize) -> Seq<(usize, usize)> {
    Seq::new(net.0@.len(), |j: int| (net.0@[j], index))
}

/// All pins of a net sequence, in net-major order.
pub open spec fn pins_of(nets: Seq<Net>) -> Seq<(usize, usize)>
    decreases nets.len(),
{
    if nets.len() == 0 {
        Seq::empty()
    } else {
        pins_of(nets.drop_last()) + net_pins(nets.last(), (nets.len() - 1) as usize)
    }
}

/// The total number of pins of a net sequence.
pub open spec fn total_pins(nets: Seq<Net>) -> int
    decreases nets.len(),
{
    if nets.len() == 0 {
        0
    } else {
        total_pins(nets.drop_last()) + nets.last().0@.len()
    }
}

/// All member vertices of a net sequence, in net-major order.
pub open spec fn flat_vertices(nets: Seq<Net>) -> Seq<usize>
    decreases nets.len(),
{
    if nets.len() == 0 {
        Seq::empty()
    } else {
        flat_vertices(nets.drop_last()) + nets.last().0@
    }
}

/// Keeps the first occurrence of every value and drops the later ones.
pub open spec fn dedup_first(s: Seq<usize>) -> Seq<usize>
    decreases s.len(),
{
    if s.len() == 0 {
        Seq::empty()
    } else {
        let prefix = dedup_first(s.drop_last());
        if prefix.contains(s.last()) {
            prefix
        } else {
            prefix.push(s.last())
        }
    }
}

/// Checks whether a vector of vertex ids contains the given id.
pub fn contains_vertex(v: &Vec<usize>, x: usize) -> (r: bool)
    ensures
        r == v@.contains(x),
{
    let mut i: usize = 0;
    while i < v.len()
        invariant
            0 <= i <= v@.len(),
            forall|k: int| 0 <= k < i ==> v@[k] != x,
        decreases v@.len() - i,
    {
        if v[i] == x {
            return true;
        }
        i += 1;
    }
    false
}

impl Graph {
    /// The lowest valid vertex id of this graph's numbering.
    pub open spec fn base(self) -> int {
        if self.header.one_indexed {
            1int
        } else {
            0int
        }
    }

    /// Every vertex id named by a net lies in the declared vertex range.
    pub open spec fn vertices_in_range(self) -> bool {
        forall|n: int, j: int|
            0 <= n < self.nets@.len() && 0 <= j < self.nets@[n].0@.len() ==> self.base() <= #[trigger] self.nets@[n].0@[j] < self.base() + self.header.num_vertices
    }

    /// The header's net count matches the stored nets.
    pub open spec fn nets_match_header(self) -> bool {
        self.nets@.len() == self.header.num_nets
    }

    /// Weight vectors have the lengths announced by the format.
    pub open spec fn weights_match_format(self) -> bool {
        &&& self.header.format.has_vertex_weights() ==> self.vertex_weights@.len()
            == self.header.num_vertices
        &&& self.header.format.has_net_weights() ==> self.net_weights@.len()
            == self.header.num_nets
    }

    /// A structurally consistent graph.
    pub open spec fn wf(self) -> bool {
        self.vertices_in_range() && self.nets_match_header()
    }

    /// All pins (vertex <-> net pairs) of the hypergraph, in net order.
    pub fn pins(&self) -> (r: Vec<(usize, usize)>)
        ensures
            r@ == pins_of(self.nets@),
    {
        let mut r: Vec<(usize, usize)> = Vec::new();
        let mut n: usize = 0;
        while n < self.nets.len()
            invariant
                0 <= n <= self.nets@.len(),
                r@ == pins_of(self.nets@.take(n as int)),
            decreases self.nets@.len() - n,
        {
            let net = &self.nets[n];
            let mut j: usize = 0;
            while j < net.0.len()
                invariant
                    0 <= j <= net.0@.len(),
                    net == &self.nets@[n as int],
                    0 <= n < self.nets@.len(),
                    r@ == pins_of(self.nets@.take(n as int)) + net_pins(self.nets@[n as int], n).take(j as int),
                decreases net.0@.len() - j,
            {
                r.push((net.0[j], n));
                assert(net_pins(self.nets@[n as int], n).take(j + 1int)
                    =~= net_pins(self.nets@[n as int], n).take(j as int).push(
                    (net.0@[j as int], n)));
                j += 1;
            }
            assert(net_pins(self.nets@[n as int], n).take(net.0@.len() as int) =~= net_pins(
                self.nets@[n as int],
                n,
            ));
            assert(self.nets@.take(n + 1int).drop_last() =~= self.nets@.take(n as int));
            assert(pins_of(self.nets@.take(n + 1int)) == pins_of(self.nets@.take(n as int))
                + net_pins(self.nets@[n as int], n));
            n += 1;
        }
        assert(self.nets@.take(self.nets@.len() as int) =~= self.nets@);
        r
    }

    /// Calculates the number of pins in this hypergraph.
    pub fn pin_count(&self) -> (r: usize)
        requires
            total_pins(self.nets@) <= usize::MAX,
        ensures
            r == total_pins(self.nets@),
    {
        proof {
            lemma_total_pins_nonneg(self.nets@);
        }
        let mut count: usize = 0;
        let mut n: usize = 0;
        while n < self.nets.len()
            invariant
                0 <= n <= self.nets@.len(),
                count == total_pins(self.nets@.take(n as int)),
                total_pins(self.nets@) <= usize::MAX,
            decreases self.nets@.len() - n,
        {
            proof {
                assert(self.nets@.take(n + 1int).drop_last() =~= self.nets@.take(n as int));
                lemma_total_pins_prefix(self.nets@, n + 1int);
                lemma_total_pins_nonneg(self.nets@.take(n as int));
            }
            count += self.nets[n].0.len();
            n += 1;
        }
        assert(self.nets@.take(self.nets@.len() as int) =~= self.nets@);
        count
    }

    /// Each vertex named by some net, exactly once, in order of first occurrence.
    pub fn vertices(&self) -> (r: Vec<usize>)
        ensures
            r@ == dedup_first(flat_vertices(self.nets@)),
    {
        let mut r: Vec<usize> = Vec::new();
        let mut n: usize = 0;
        while n < self.nets.len()
            invariant
                0 <= n <= self.nets@.len(),
                r@ == dedup_first(flat_vertices(self.nets@.take(n as int))),
            decreases self.nets@.len() - n,
        {
            let net = &self.nets[n];
            let mut j: usize = 0;
            while j < net.0.len()
                invariant
                    0 <= j <= net.0@.len(),
                    net == &self.nets@[n as int],
                    0 <= n < self.nets@.len(),
                    r@ == dedup_first(
                        flat_vertices(self.nets@.take(n as int)) + net.0@.take(j as int),
                    ),
                decreases net.0@.len() - j,
            {
                let v = net.0[j];
                proof {
                    let flat = flat_vertices(self.nets@.take(n as int)) + net.0@.take(j as int);
                    let flat2 = flat_vertices(self.nets@.take(n as int)) + net.0@.take(j + 1int);
                    assert(flat2.drop_last() =~= flat);
                    assert(flat2.last() == net.0@[j as int]);
                }
                let already = contains_vertex(&r, v);
                if !already {
                    r.push(v);
                }
                j += 1;
            }
            proof {
                assert(flat_vertices(self.nets@.take(n as int)) + net.0@.take(net.0@.len() as int)
                    =~= flat_vertices(self.nets@.take(n + 1int)) + net.0@.take(0int)) by {
                    assert(net.0@.take(net.0@.len() as int) =~= net.0@);
                    assert(self.nets@.take(n + 1int).drop_last() =~= self.nets@.take(n as int));
                    assert(flat_vertices(self.nets@.take(n + 1int)) == flat_vertices(
                        self.nets@.take(n as int),
                    ) + net.0@);
                }
                assert(flat_vertices(self.nets@.take(n + 1int)) + net.0@.take(0int)
                    =~= flat_vertices(self.nets@.take(n + 1int)));
            }
            n += 1;
        }
        assert(self.nets@.take(self.nets@.len() as int) =~= self.nets@);
        r
    }
}

impl Graph {
    /// The dual graph `d` has one net per vertex of `self`: the ascending,
    /// duplicate-free list of the nets incident to that vertex.
    pub open spec fn is_dual_of(self, d: Graph) -> bool {
        &&& d.header.num_nets == self.header.num_vertices
        &&& d.header.num_vertices == self.header.num_nets
        &&& d.header.format == self.header.format.dual_spec()
        &&& d.header.one_indexed == self.header.one_indexed
        &&& d.vertex_weights@ == self.net_weights@
        &&& d.net_weights@ == self.vertex_weights@
        &&& d.nets@.len() == self.header.num_vertices
        &&& forall|v: int|
            0 <= v < self.header.num_vertices ==> strictly_increasing(#[trigger] d.nets@[v].0@)
        &&& forall|v: int, m: usize|
            0 <= v < self.header.num_vertices ==> (#[trigger] d.nets@[v].0@.contains(m) <==> (
            self.base() <= m < self.base() + self.header.num_nets && self.nets@[m
                - self.base()].0@.contains((v + self.base()) as usize)))
    }

    /// Creates the corresponding dual hypergraph.
    ///
    /// Vertices become nets containing the ids of their incident nets, in
    /// ascending order with duplicates collapsed; the roles of net and
    /// vertex weights are exchanged.  Applying the transform twice
    /// restores the graph up to that canonical ordering;
    /// `lemma_dual_involutive` states and proves this.
    pub fn dual(&self) -> (r: Graph)
        requires
            self.wf(),
        ensures
            self.is_dual_of(r),
            r.wf(),
    {
        let base: usize = if self.header.one_indexed {
            1
        } else {
            0
        };
        let mut nets: Vec<Net> = Vec::new();
        let mut v: usize = 0;
        while v < self.header.num_vertices
            invariant
                0 <= v <= self.header.num_vertices,
                nets@.len() == v,
                base as int == self.base(),
                self.wf(),
                forall|w: int| 0 <= w < v ==> strictly_increasing(#[trigger] nets@[w].0@),
                forall|w: int, m: usize|
                    0 <= w < v ==> (#[trigger] nets@[w].0@.contains(m) <==> (self.base() <= m
                        < self.base() + self.header.num_nets && self.nets@[m
                        - self.base()].0@.contains((w + self.base()) as usize))),
            decreases self.header.num_vertices - v,
        {
            let mut dn: Vec<usize> = Vec::new();
            let mut n: usize = 0;
            while n < self.nets.len()
                invariant
                    0 <= n <= self.nets@.len(),
                    base as int == self.base(),
                    self.wf(),
                    v < self.header.num_vertices,
                    forall|i: int, j: int| 0 <= i < j < dn@.len() ==> dn@[i] < dn@[j],
                    forall|i: int| 0 <= i < dn@.len() ==> #[trigger] dn@[i] < n + base,
                    forall|m: usize|
                        #[trigger] dn@.contains(m) <==> (self.base() <= m < self.base() + n
                            && self.nets@[m - self.base()].0@.contains((v + self.base()) as usize)),
                decreases self.nets@.len() - n,
            {
                let ghost old_dn = dn@;
                if contains_vertex(&self.nets[n].0, v + base) {
                    dn.push(n + base);
                    proof {
                        assert forall|m: usize| #[trigger] dn@.contains(m) implies (
                        old_dn.contains(m) || m == ((n + base) as usize)) by {
                            let i = choose|i: int| 0 <= i < dn@.len() && dn@[i] == m;
                            if i < old_dn.len() {
                                assert(old_dn[i] == m);
                            }
                        }
                        assert forall|m: usize| old_dn.contains(m) implies #[trigger] dn@.contains(
                            m,
                        ) by {
                            let i = choose|i: int| 0 <= i < old_dn.len() && old_dn[i] == m;
                            assert(dn@[i] == m);
                        }
                        assert(dn@[dn@.len() - 1] == (n + base) as usize);
                        assert(dn@.contains((n + base) as usize));
                    }
                }
                n += 1;
            }
            assert(strictly_increasing(dn@));
            nets.push(Net(dn));
            v += 1;
        }
        let r = Graph {
            header: Header {
                num_nets: self.header.num_vertices,
                num_vertices: self.header.num_nets,
                format: self.header.format.dual(),
                one_indexed: self.header.one_indexed,
            },
            nets,
            vertex_weights: copy_weights(&self.net_weights),
            net_weights: copy_weights(&self.vertex_weights),
        };
        proof {
            assert forall|n: int, j: int|
                0 <= n < r.nets@.len() && 0 <= j < r.nets@[n].0@.len() implies r.base()
                <= #[trigger] r.nets@[n].0@[j] < r.base() + r.header.num_vertices by {
                assert(r.nets@[n].0@.contains(r.nets@[n].0@[j]));
            }
        }
        r
    }
}

/// The nets that still hold at least one vertex.
pub open spec fn nonempty_nets(nets: Seq<Net>) -> Seq<Net> {
    nets.filter(|n: Net| n.0@.len() > 0)
}

/// The net weights whose nets still hold at least one vertex.
pub open spec fn nonempty_net_weights(nets: Seq<Net>, ws: Seq<Weight>) -> Seq<Weight>
    decreases nets.len(),
{
    if nets.len() == 0 {
        Seq::empty()
    } else if nets.last().0@.len() > 0 {
        nonempty_net_weights(nets.drop_last(), ws.drop_last()).push(ws.last())
    } else {
        nonempty_net_weights(nets.drop_last(), ws.drop_last())
    }
}

proof fn lemma_nonempty_nets_push(s: Seq<Net>, x: Net)
    ensures
        nonempty_nets(s.push(x)) == if x.0@.len() > 0 {
            nonempty_nets(s).push(x)
        } else {
            nonempty_nets(s)
        },
{
    reveal(Seq::filter);
    assert(s.push(x).drop_last() =~= s);
    assert(s.push(x).last() == x);
}

impl Graph {
    /// Removes empty nets and, when the format carries them, their weights.
    pub fn trim(&mut self)
        requires
            old(self).header.format.has_net_weights() ==> old(self).net_weights@.len() == old(
                self,
            ).nets@.len(),
        ensures
            final(self).header == old(self).header,
            final(self).vertex_weights@ == old(self).vertex_weights@,
            final(self).nets@ == nonempty_nets(old(self).nets@),
            final(self).net_weights@ == if old(self).header.format.has_net_weights() {
                nonempty_net_weights(old(self).nets@, old(self).net_weights@)
            } else {
                old(self).net_weights@
            },
    {
        let has_w = self.header.format.contains_net_weights();
        let ghost orig = self.nets@;
        let ghost orig_w = self.net_weights@;
        let mut i: usize = 0;
        let ghost mut oi: int = 0;
        while i < self.nets.len()
            invariant
                0 <= i <= self.nets@.len(),
                0 <= oi <= orig.len(),
                has_w == self.header.format.has_net_weights(),
                has_w ==> orig_w.len() == orig.len(),
                has_w ==> self.net_weights@.len() == self.nets@.len(),
                self.header == old(self).header,
                self.vertex_weights@ == old(self).vertex_weights@,
                self.nets@.take(i as int) == nonempty_nets(orig.take(oi)),
                self.nets@.skip(i as int) == orig.skip(oi),
                has_w ==> self.net_weights@.take(i as int) == nonempty_net_weights(
                    orig.take(oi),
                    orig_w.take(oi),
                ),
                has_w ==> self.net_weights@.skip(i as int) == orig_w.skip(oi),
                !has_w ==> self.net_weights@ == orig_w,
            decreases self.nets@.len() - i,
        {
            proof {
                assert(oi < orig.len()) by {
                    assert(orig.skip(oi).len() == self.nets@.len() - i);
                }
                assert(self.nets@[i as int] == orig.skip(oi)[0]);
                assert(orig.skip(oi)[0] == orig[oi]);
                assert(orig.take(oi + 1) =~= orig.take(oi).push(orig[oi]));
                lemma_nonempty_nets_push(orig.take(oi), orig[oi]);
                if has_w {
                    assert(self.net_weights@[i as int] == orig_w.skip(oi)[0]);
                    assert(orig_w.skip(oi)[0] == orig_w[oi]);
                    assert(orig.take(oi + 1).drop_last() =~= orig.take(oi));
                    assert(orig_w.take(oi + 1).drop_last() =~= orig_w.take(oi));
                    assert(orig_w.take(oi + 1).last() == orig_w[oi]);
                }
            }
            if self.nets[i].0.len() == 0 {
                let ghost pre = self.nets@;
                self.nets.remove(i);
                proof {
                    assert(self.nets@.take(i as int) =~= pre.take(i as int));
                    assert(self.nets@.skip(i as int) =~= orig.skip(oi + 1)) by {
                        assert(pre.skip(i as int) =~= orig.skip(oi));
                        assert(pre.skip(i as int).len() == orig.skip(oi).len());
                        assert(pre.len() - i == orig.len() - oi);
                        assert forall|k: int|
                            0 <= k < self.nets@.len() - i implies #[trigger] self.nets@.skip(
                            i as int,
                        )[k] == orig.skip(oi + 1)[k] by {
                            assert(self.nets@ == pre.remove(i as int));
                            assert(0 <= k < orig.skip(oi + 1).len());
                            assert(self.nets@.skip(i as int)[k] == self.nets@[i + k]);
                            assert(self.nets@[i + k] == pre[i + k + 1]);
                            assert(orig.skip(oi + 1)[k] == orig[oi + 1 + k]);
                            assert(pre[i + k + 1] == pre.skip(i as int)[k + 1]);
                            assert(pre.skip(i as int)[k + 1] == orig.skip(oi)[k + 1]);
                            assert(orig.skip(oi)[k + 1] == orig[oi + k + 1]);
                        }
                    }
                }
                if has_w {
                    let ghost pre_w = self.net_weights@;
                    self.net_weights.remove(i);
                    proof {
                        assert(self.net_weights@.take(i as int) =~= pre_w.take(i as int));
                        assert(self.net_weights@.skip(i as int) =~= orig_w.skip(oi + 1)) by {
                            assert(pre_w.skip(i as int) =~= orig_w.skip(oi));
                            assert forall|k: int|
                                0 <= k < self.net_weights@.len() - i implies self.net_weights@.skip(
                                i as int,
                            )[k] == orig_w.skip(oi + 1)[k] by {
                                assert(self.net_weights@[i + k] == pre_w[i + k + 1]);
                                assert(pre_w[i + k + 1] == pre_w.skip(i as int)[k + 1]);
                            }
                        }
                    }
                }
                proof {
                    oi = oi + 1;
                }
            } else {
                proof {
                    assert(self.nets@.take(i + 1) =~= self.nets@.take(i as int).push(
                        self.nets@[i as int],
                    ));
                    assert(self.nets@.skip(i as int).len() == orig.skip(oi).len());
                    assert(self.nets@.len() - i == orig.len() - oi);
                    assert(self.nets@.skip(i + 1) =~= orig.skip(oi + 1)) by {
                        assert forall|k: int|
                            0 <= k < self.nets@.len() - i - 1 implies #[trigger] self.nets@.skip(
                            i + 1,
                        )[k] == orig.skip(oi + 1)[k] by {
                            assert(self.nets@.skip(i + 1)[k] == self.nets@[i + 1 + k]);
                            assert(self.nets@[i + 1 + k] == self.nets@.skip(i as int)[k + 1]);
                            assert(self.nets@.skip(i as int)[k + 1] == orig.skip(oi)[k + 1]);
                            assert(orig.skip(oi)[k + 1] == orig[oi + k + 1]);
                            assert(orig.skip(oi + 1)[k] == orig[oi + 1 + k]);
                        }
                    }
                    if has_w {
                        assert(self.net_weights@.take(i + 1) =~= self.net_weights@.take(
                            i as int,
                        ).push(self.net_weights@[i as int]));
                        assert(self.net_weights@.skip(i + 1) =~= orig_w.skip(oi + 1)) by {
                            assert forall|k: int|
                                0 <= k < self.net_weights@.len() - i - 1 implies #[trigger] self.net_weights@.skip(
                                i + 1,
                            )[k] == orig_w.skip(oi + 1)[k] by {
                                assert(self.net_weights@[i + 1 + k] == self.net_weights@.skip(
                                    i as int,
                                )[k + 1]);
                            }
                        }
                    }
                    oi = oi + 1;
                }
                i += 1;
            }
        }
        proof {
            assert(oi == orig.len()) by {
                assert(orig.skip(oi).len() == 0);
            }
            assert(orig.take(oi) =~= orig);
            assert(orig_w.take(orig_w.len() as int) =~= orig_w);
            assert(self.nets@.take(i as int) =~= self.nets@);
            if has_w {
                assert(orig_w.take(oi) =~= orig_w);
                assert(self.net_weights@.take(i as int) =~= self.net_weights@);
            }
        }
    }

    /// Moves all vertex ids of the hypergraph up by the given amount, each
    /// saturating at the largest representable id.
    ///
    /// Also increases the number of vertices and, when the format carries
    /// vertex weights, prepends a zero weight for every vertex id created.
    pub fn move_indices(&mut self, step: isize)
        requires
            step >= 0,
            old(self).header.num_vertices + step <= usize::MAX,
        ensures
            final(self).header.num_nets == old(self).header.num_nets,
            final(self).header.num_vertices == old(self).header.num_vertices + step,
            final(self).header.format == old(self).header.format,
            final(self).header.one_indexed == old(self).header.one_indexed,
            final(self).net_weights@ == old(self).net_weights@,
            final(self).nets@.len() == old(self).nets@.len(),
            forall|n: int|
                0 <= n < old(self).nets@.len() ==> #[trigger] final(self).nets@[n].0@ == Seq::new(
                    old(self).nets@[n].0@.len(),
                    |j: int| saturating_shift(old(self).nets@[n].0@[j], step as int),
                ),
            final(self).vertex_weights@ == if old(self).header.format.has_vertex_weights() {
                Seq::new(step as nat, |j: int| 0 as Weight) + old(self).vertex_weights@
            } else {
                old(self).vertex_weights@
            },
    {
        let amount: usize = step as usize;
        let ghost old_nets = self.nets@;
        let mut n: usize = 0;
        while n < self.nets.len()
            invariant
                0 <= n <= self.nets@.len(),
                amount == step as int,
                self.header == old(self).header,
                self.vertex_weights@ == old(self).vertex_weights@,
                self.net_weights@ == old(self).net_weights@,
                self.nets@.len() == old_nets.len(),
                forall|k: int| n <= k < old_nets.len() ==> #[trigger] self.nets@[k] == old_nets[k],
                forall|k: int|
                    0 <= k < n ==> #[trigger] self.nets@[k].0@ == Seq::new(
                        old_nets[k].0@.len(),
                        |j: int| saturating_shift(old_nets[k].0@[j], step as int),
                    ),
            decreases self.nets@.len() - n,
        {
            let len = self.nets[n].0.len();
            let mut j: usize = 0;
            while j < len
                invariant
                    0 <= j <= len,
                    0 <= n < self.nets@.len(),
                    amount == step as int,
                    len == old_nets[n as int].0@.len(),
                    self.header == old(self).header,
                    self.vertex_weights@ == old(self).vertex_weights@,
                    self.net_weights@ == old(self).net_weights@,
                    self.nets@.len() == old_nets.len(),
                    forall|k: int|
                        n < k < old_nets.len() ==> #[trigger] self.nets@[k] == old_nets[k],
                    forall|k: int|
                        0 <= k < n ==> #[trigger] self.nets@[k].0@ == Seq::new(
                            old_nets[k].0@.len(),
                            |jj: int| saturating_shift(old_nets[k].0@[jj], step as int),
                        ),
                    self.nets@[n as int].0@.len() == len,
                    forall|jj: int|
                        j <= jj < len ==> #[trigger] self.nets@[n as int].0@[jj] == old_nets[n as int].0@[jj],
                    forall|jj: int|
                        0 <= jj < j ==> #[trigger] self.nets@[n as int].0@[jj] == saturating_shift(
                            old_nets[n as int].0@[jj],
                            step as int,
                        ),
                decreases len - j,
            {
                let v = self.nets[n].0[j];
                let shifted: usize = if v > usize::MAX - amount {
                    usize::MAX
                } else {
                    v + amount
                };
                self.nets[n].0.set(j, shifted);
                j += 1;
            }
            proof {
                assert(self.nets@[n as int].0@ =~= Seq::new(
                    old_nets[n as int].0@.len(),
                    |jj: int| saturating_shift(old_nets[n as int].0@[jj], step as int),
                ));
            }
            n += 1;
        }
        self.header.num_vertices = self.header.num_vertices + amount;
        if self.header.format.contains_vertex_weights() {
            let mut ws: Vec<Weight> = Vec::new();
            let mut k: usize = 0;
            while k < amount
                invariant
                    0 <= k <= amount,
                    ws@ =~= Seq::new(k as nat, |j: int| 0 as Weight),
                decreases amount - k,
            {
                ws.push(0);
                assert(ws@ =~= Seq::new((k + 1) as nat, |j: int| 0 as Weight));
                k += 1;
            }
            let mut rest = copy_weights(&self.vertex_weights);
            ws.append(&mut rest);
            self.vertex_weights = ws;
        }
    }
}

/// A vertex id moved up by `step`, capped at the largest representable id.
pub open spec fn saturating_shift(v: usize, step: int) -> usize {
    if v + step > usize::MAX {
        usize::MAX
    } else {
        (v + step) as usize
    }
}

/// Copies a vector of vertex ids.
pub fn copy_vertices(v: &Vec<usize>) -> (r: Vec<usize>)
    ensures
        r@ == v@,
{
    let mut r: Vec<usize> = Vec::new();
    let mut i: usize = 0;
    while i < v.len()
        invariant
            0 <= i <= v@.len(),
            r@ == v@.take(i as int),
        decreases v@.len() - i,
    {
        r.push(v[i]);
        assert(v@.take(i + 1int) =~= v@.take(i as int).push(v@[i as int]));
        i += 1;
    }
    assert(v@.take(v@.len() as int) =~= v@);
    r
}

/// Copies a weight vector.
pub fn copy_weights(v: &Vec<Weight>) -> (r: Vec<Weight>)
    ensures
        r@ == v@,
{
    let mut r: Vec<Weight> = Vec::new();
    let mut i: usize = 0;
    while i < v.len()
        invariant
            0 <= i <= v@.len(),
            r@ == v@.take(i as int),
        decreases v@.len() - i,
    {
        r.push(v[i]);
        assert(v@.take(i + 1int) =~= v@.take(i as int).push(v@[i as int]));
        i += 1;
    }
    assert(v@.take(v@.len() as int) =~= v@);
    r
}

/// Two strictly ascending sequences with the same members are equal.
pub proof fn lemma_strictly_increasing_unique(a: Seq<usize>, b: Seq<usize>)
    requires
        strictly_increasing(a),
        strictly_increasing(b),
        forall|x: usize| a.contains(x) <==> b.contains(x),
    ensures
        a == b,
    decreases a.len(),
{
    if a.len() == 0 {
        if b.len() > 0 {
            assert(b.contains(b[0]));
            assert(a.contains(b[0]));
            assert(false);
        }
        assert(a =~= b);
    } else {
        assert(a.contains(a[0]));
        assert(b.contains(a[0]));
        assert(b.len() > 0);
        assert(b.contains(b[0]));
        assert(a.contains(b[0]));
        let i = choose|i: int| 0 <= i < b.len() && b[i] == a[0];
        let j = choose|j: int| 0 <= j < a.len() && a[j] == b[0];
        assert(b[0] <= b[i]);
        assert(a[0] <= a[j]);
        assert(a[0] == b[0]);
        let at = a.drop_first();
        let bt = b.drop_first();
        assert forall|x: usize| at.contains(x) implies bt.contains(x) by {
            let k = choose|k: int| 0 <= k < at.len() && at[k] == x;
            assert(a[k + 1] == x);
            assert(a.contains(x));
            assert(b.contains(x));
            assert(x > a[0]);
            let l = choose|l: int| 0 <= l < b.len() && b[l] == x;
            assert(l != 0);
            assert(bt[l - 1] == x);
        }
        assert forall|x: usize| bt.contains(x) implies at.contains(x) by {
            let k = choose|k: int| 0 <= k < bt.len() && bt[k] == x;
            assert(b[k + 1] == x);
            assert(b.contains(x));
            assert(a.contains(x));
            assert(x > b[0]);
            let l = choose|l: int| 0 <= l < a.len() && a[l] == x;
            assert(l != 0);
            assert(at[l - 1] == x);
        }
        lemma_strictly_increasing_unique(at, bt);
        assert(a.len() == b.len());
        assert forall|k: int| 0 <= k < a.len() implies a[k] == b[k] by {
            if k > 0 {
                assert(a[k] == at[k - 1]);
                assert(b[k] == bt[k - 1]);
                assert(at[k - 1] == bt[k - 1]);
            }
        }
        assert(a =~= b);
    }
}

/// Law: applying the dual transform twice yields the original hypergraph up
/// to the canonical ordering of each net: header and weights are restored
/// exactly, and every net holds exactly the original member set, ascending
/// and duplicate-free.  A graph whose nets already are ascending and
/// duplicate-free is restored net for net.
pub proof fn lemma_dual_involutive(g: Graph, d: Graph, dd: Graph)
    requires
        g.wf(),
        g.is_dual_of(d),
        d.is_dual_of(dd),
    ensures
        dd.header == g.header,
        dd.vertex_weights@ == g.vertex_weights@,
        dd.net_weights@ == g.net_weights@,
        dd.nets@.len() == g.nets@.len(),
        forall|u: int| 0 <= u < g.nets@.len() ==> strictly_increasing(#[trigger] dd.nets@[u].0@),
        forall|u: int, m: usize|
            0 <= u < g.nets@.len() ==> (#[trigger] dd.nets@[u].0@.contains(m)
                <==> g.nets@[u].0@.contains(m)),
        (forall|u: int| 0 <= u < g.nets@.len() ==> strictly_increasing(#[trigger] g.nets@[u].0@))
            ==> (forall|u: int|
            0 <= u < g.nets@.len() ==> #[trigger] dd.nets@[u].0@ == g.nets@[u].0@),
{
    assert(dd.header.format == g.header.format) by {
        lemma_format_dual_involutive(g.header.format);
    }
    let base = g.base();
    assert(d.base() == base);
    assert forall|u: int, m: usize|
        0 <= u < g.nets@.len() implies (#[trigger] dd.nets@[u].0@.contains(m)
        <==> g.nets@[u].0@.contains(m)) by {
        assert(dd.nets@[u].0@.contains(m) <==> (base <= m < base + d.header.num_nets
            && d.nets@[m - base].0@.contains((u + base) as usize)));
        if base <= m < base + d.header.num_nets {
            let v = m - base;
            let ub: usize = (u + base) as usize;
            assert(d.nets@[v].0@.contains(ub) <==> (base <= ub < base + g.header.num_nets
                && g.nets@[ub - base].0@.contains((v + base) as usize)));
            assert(ub - base == u);
            assert((v + base) as usize == m);
        }
        if g.nets@[u].0@.contains(m) {
            assert(base <= m < base + g.header.num_vertices);
        }
    }
    assert forall|u: int|
        0 <= u < g.nets@.len() implies strictly_increasing(#[trigger] dd.nets@[u].0@) by {
        assert(0 <= u < d.header.num_vertices);
    }
    if forall|u: int| 0 <= u < g.nets@.len() ==> strictly_increasing(#[trigger] g.nets@[u].0@) {
        assert forall|u: int| 0 <= u < g.nets@.len() implies #[trigger] dd.nets@[u].0@
            == g.nets@[u].0@ by {
            lemma_strictly_increasing_unique(dd.nets@[u].0@, g.nets@[u].0@);
        }
    }
}

/// The text of one net: its vertex ids separated by single spaces.
pub open spec fn net_chars(vs: Seq<usize>) -> Seq<char>
    decreases vs.len(),
{
    if vs.len() == 0 {
        Seq::empty()
    } else if vs.len() == 1 {
        crate::text::dec_chars(vs[0] as int)
    } else {
        crate::text::dec_chars(vs[0] as int) + seq![' '] + net_chars(vs.drop_first())
    }
}

/// Appends the text of one net to the output.
pub fn append_net(out: &mut String, net: &Net)
    ensures
        final(out)@ == old(out)@ + net_chars(net.0@),
{
    let ghost base = out@;
    let mut j: usize = 0;
    proof {
        assert(net.0@.skip(0) =~= net.0@);
    }
    while j < net.0.len()
        invariant
            0 <= j <= net.0@.len(),
            out@ + net_chars(net.0@.skip(j as int)) == base + net_chars(net.0@),
        decreases net.0@.len() - j,
    {
        let v = net.0[j];
        let ghost pre = out@;
        crate::text::append_dec(out, v as u64);
        let ghost tail = net.0@.skip(j as int);
        proof {
            assert(tail[0] == v);
            assert(tail.drop_first() =~= net.0@.skip(j + 1));
        }
        if j + 1 < net.0.len() {
            proof {
                reveal_strlit(" ");
            }
            out.append(" ");
            proof {
                assert(net_chars(tail) == crate::text::dec_chars(v as int) + seq![' ']
                    + net_chars(net.0@.skip(j + 1)));
                assert(out@ =~= pre + crate::text::dec_chars(v as int) + seq![' ']);
                assert(out@ + net_chars(net.0@.skip(j + 1)) =~= pre + net_chars(tail));
            }
        } else {
            proof {
                assert(tail.len() == 1);
                assert(net_chars(tail) == crate::text::dec_chars(v as int));
                assert(net.0@.skip(j + 1) =~= Seq::<usize>::empty());
                assert(out@ + net_chars(net.0@.skip(j + 1)) =~= pre + net_chars(tail));
            }
        }
        j += 1;
    }
    proof {
        assert(net.0@.skip(net.0@.len() as int) =~= Seq::<usize>::empty());
        assert(out@ + net_chars(Seq::<usize>::empty()) =~= out@);
    }
}

/// The weight lines: one weight per line.
pub open spec fn weight_lines(ws: Seq<Weight>) -> Seq<char>
    decreases ws.len(),
{
    if ws.len() == 0 {
        Seq::empty()
    } else {
        weight_lines(ws.drop_last()) + crate::text::dec_chars(ws.last() as int) + seq!['\n']
    }
}

/// Appends the weight lines to the output.
pub fn append_weight_lines(out: &mut String, ws: &Vec<Weight>)
    ensures
        final(out)@ == old(out)@ + weight_lines(ws@),
{
    let ghost base = out@;
    let mut i: usize = 0;
    proof {
        assert(out@ =~= base + weight_lines(ws@.take(0)));
    }
    while i < ws.len()
        invariant
            0 <= i <= ws@.len(),
            out@ == base + weight_lines(ws@.take(i as int)),
        decreases ws@.len() - i,
    {
        let w = ws[i];
        crate::text::append_dec(out, w as u64);
        proof {
            reveal_strlit("\n");
        }
        out.append("\n");
        proof {
            assert(ws@.take(i + 1int).drop_last() =~= ws@.take(i as int));
            assert(ws@.take(i + 1int).last() == w);
            assert(out@ =~= base + weight_lines(ws@.take(i + 1int)));
        }
        i += 1;
    }
    proof {
        assert(ws@.take(ws@.len() as int) =~= ws@);
    }
}

/// The pin total of a net sequence is never negative.
proof fn lemma_total_pins_nonneg(nets: Seq<Net>)
    ensures
        total_pins(nets) >= 0,
    decreases nets.len(),
{
    if nets.len() > 0 {
        lemma_total_pins_nonneg(nets.drop_last());
    }
}

/// A prefix of a net sequence has at most as many pins as the whole.
pub proof fn lemma_total_pins_prefix(nets: Seq<Net>, i: int)
    requires
        0 <= i <= nets.len(),
    ensures
        total_pins(nets.take(i)) <= total_pins(nets),
    decreases nets.len() - i,
{
    if i < nets.len() {
        lemma_total_pins_prefix(nets, i + 1);
        assert(nets.take(i + 1).drop_last() =~= nets.take(i));
        assert(total_pins(nets.take(i + 1)) == total_pins(nets.take(i)) + nets[i].0@.len());
    } else {
        assert(nets.take(i) =~= nets);
    }
}

} // verus!
