//! CNF formulas: clauses of signed literals, occurrence heuristics, and
//! the conversion of a formula into its structural hypergraph.

use vstd::prelude::*;

use crate::format::Format;
use crate::graph::{Graph, Header, Net, Weight};

verus! {

/// The variable of a literal: its magnitude.
pub open spec fn lit_var(l: int) -> int {
    if l < 0 {
        -l
    } else {
        l
    }
}

/// A single clause of a CNF: its literals, negative for negated variables.
#[derive(Debug, Clone)]
pub struct CnfClause(pub Vec<i64>);

impl CnfClause {
    /// Whether the clause holds the positive literal of `v`.
    pub open spec fn has_positive(self, v: int) -> bool {
        self.0@.contains(v as i64)
    }

    /// Whether the clause holds the negative literal of `v`.
    pub open spec fn has_negative(self, v: int) -> bool {
        self.0@.contains((-v) as i64)
    }

    /// How many of the two literals of `v` the clause holds.
    pub open spec fn occurrence_spec(self, v: int) -> int {
        if self.has_positive(v) && self.has_negative(v) {
            2
        } else if self.has_positive(v) || self.has_negative(v) {
            1
        } else {
            0
        }
    }

    /// Whether the clause mentions the variable `v` in either polarity.
    pub open spec fn has_var(self, v: int) -> bool {
        self.has_positive(v) || self.has_negative(v)
    }

    /// All literals of this clause.
    pub fn literals(&self) -> (r: &Vec<i64>)
        ensures
            r@ == self.0@,
    {
        &self.0
    }

    /// The variables of this clause, one per literal, in literal order.
    pub fn variables(&self) -> (r: Vec<u64>)
        ensures
            r@.len() == self.0@.len(),
            forall|i: int| 0 <= i < r@.len() ==> #[trigger] r@[i] == lit_var(self.0@[i] as int),
    {
        let mut r: Vec<u64> = Vec::new();
        let mut i: usize = 0;
        while i < self.0.len()
            invariant
                0 <= i <= self.0@.len(),
                r@.len() == i,
                forall|k: int| 0 <= k < i ==> #[trigger] r@[k] == lit_var(self.0@[k] as int),
            decreases self.0@.len() - i,
        {
            let l = self.0[i];
            let v: u64 = if l >= 0 {
                l as u64
            } else {
                (-(l as i128)) as u64
            };
            r.push(v);
            i += 1;
        }
        r
    }

    /// The amount of literals in this clause.
    pub fn len(&self) -> (r: usize)
        ensures
            r == self.0@.len(),
    {
        self.0.len()
    }

    /// Checks whether this clause contains the positive literal of the
    /// given variable.
    pub fn contains_positive(&self, var: u64) -> (r: bool)
        requires
            var <= i64::MAX,
        ensures
            r == self.has_positive(var as int),
    {
        let lit: i64 = var as i64;
        contains_lit(&self.0, lit)
    }

    /// Checks whether this clause contains the negative literal of the
    /// given variable.
    pub fn contains_negative(&self, var: u64) -> (r: bool)
        requires
            var <= i64::MAX,
        ensures
            r == self.has_negative(var as int),
    {
        let lit: i64 = -(var as i64);
        contains_lit(&self.0, lit)
    }

    /// Checks whether this clause contains the given variable.
    pub fn contains(&self, var: u64) -> (r: bool)
        requires
            var <= i64::MAX,
        ensures
            r == self.has_var(var as int),
    {
        self.contains_positive(var) || self.contains_negative(var)
    }

    /// Calculates how many times the given variable is found in this
    /// clause. Can be `0`, `1` or `2`.
    pub fn occurrence(&self, var: u64) -> (r: usize)
        requires
            var <= i64::MAX,
        ensures
            r == self.occurrence_spec(var as int),
            r <= 2,
    {
        let positive = self.contains_positive(var);
        let negative = self.contains_negative(var);
        if positive && negative {
            return 2;
        }
        if positive || negative {
            return 1;
        }
        0
    }
}

/// Checks whether a clause's literal list contains the given literal.
fn contains_lit(lits: &Vec<i64>, x: i64) -> (r: bool)
    ensures
        r == lits@.contains(x),
{
    let mut i: usize = 0;
    while i < lits.len()
        invariant
            0 <= i <= lits@.len(),
            forall|k: int| 0 <= k < i ==> lits@[k] != x,
        decreases lits@.len() - i,
    {
        if lits[i] == x {
            return true;
        }
        i += 1;
    }
    false
}

/// The vertex-weight heuristic used when a CNF becomes a hypergraph.
#[derive(Debug, Copy, Clone, Default, PartialEq, Eq, Structural)]
pub enum VariableHeuristic {
    /// Uniform weights: the topology alone.
    #[default]
    Uniform,
    /// Raw occurrence count over all clauses.
    MAXO,
    /// Occurrence count over the clauses of minimum size.
    MOMS,
    /// The sum of the two other heuristics.
    MAMS,
}

/// A CNF formula: its declared variable count and its clauses.
#[derive(Debug, Clone)]
pub struct Cnf {
    /// The declared number of variables, numbered from one.
    pub num_vars: u64,
    /// The clauses of the formula.
    pub clauses: Vec<CnfClause>,
}

/// The summed occurrence of `v` over a clause sequence.
pub open spec fn maxo_spec(clauses: Seq<CnfClause>, v: int) -> int
    decreases clauses.len(),
{
    if clauses.len() == 0 {
        0
    } else {
        maxo_spec(clauses.drop_last(), v) + clauses.last().occurrence_spec(v)
    }
}

/// The smallest clause size of a clause sequence.
pub open spec fn min_clause_len(clauses: Seq<CnfClause>) -> int
    decreases clauses.len(),
{
    if clauses.len() <= 1 {
        if clauses.len() == 0 {
            0
        } else {
            clauses[0].0@.len() as int
        }
    } else {
        let rest = min_clause_len(clauses.drop_last());
        if clauses.last().0@.len() < rest {
            clauses.last().0@.len() as int
        } else {
            rest
        }
    }
}

/// The summed occurrence of `v` over the clauses of size `m`.
pub open spec fn moms_at_spec(clauses: Seq<CnfClause>, v: int, m: int) -> int
    decreases clauses.len(),
{
    if clauses.len() == 0 {
        0
    } else {
        moms_at_spec(clauses.drop_last(), v, m) + if clauses.last().0@.len() == m {
            clauses.last().occurrence_spec(v)
        } else {
            0
        }
    }
}

/// The value the chosen heuristic gives to variable `v`.
pub open spec fn heuristic_value(cnf: Cnf, heuristic: VariableHeuristic, v: int) -> int {
    match heuristic {
        VariableHeuristic::Uniform => 0,
        VariableHeuristic::MAXO => maxo_spec(cnf.clauses@, v),
        VariableHeuristic::MOMS => moms_at_spec(cnf.clauses@, v, min_clause_len(cnf.clauses@)),
        VariableHeuristic::MAMS => maxo_spec(cnf.clauses@, v) + moms_at_spec(
            cnf.clauses@,
            v,
            min_clause_len(cnf.clauses@),
        ),
    }
}

/// The exchange-format weight of a heuristic value: its low bits are
/// subtracted from the largest weight, zero replaced by one so that every
/// vertex keeps a positive weight.
pub open spec fn scaled_weight(w: int) -> Weight
    recommends
        w >= 0,
{
    let adapted = 65535 - (w % 65536);
    if adapted == 0 {
        1 as Weight
    } else {
        adapted as Weight
    }
}

impl Cnf {
    /// All clauses of this CNF.
    pub fn iter(&self) -> (r: &Vec<CnfClause>)
        ensures
            r@ == self.clauses@,
    {
        &self.clauses
    }

    /// The occurrence sum over every clause.
    pub fn maxo(&self, var: u64) -> (r: usize)
        requires
            var <= i64::MAX,
            2 * self.clauses@.len() <= usize::MAX,
        ensures
            r == maxo_spec(self.clauses@, var as int),
            r <= 2 * self.clauses@.len(),
    {
        proof {
            lemma_maxo_bound(self.clauses@, var as int);
        }
        let mut sum: usize = 0;
        let mut i: usize = 0;
        while i < self.clauses.len()
            invariant
                0 <= i <= self.clauses@.len(),
                var <= i64::MAX,
                sum == maxo_spec(self.clauses@.take(i as int), var as int),
                sum <= 2 * i,
                2 * self.clauses@.len() <= usize::MAX,
            decreases self.clauses@.len() - i,
        {
            proof {
                assert(self.clauses@.take(i + 1int).drop_last() =~= self.clauses@.take(i as int));
                assert(self.clauses@.take(i + 1int).last() == self.clauses@[i as int]);
            }
            sum += self.clauses[i].occurrence(var);
            i += 1;
        }
        proof {
            assert(self.clauses@.take(self.clauses@.len() as int) =~= self.clauses@);
        }
        sum
    }

    /// The smallest clause size.
    fn min_len(&self) -> (r: usize)
        requires
            self.clauses@.len() >= 1,
        ensures
            r == min_clause_len(self.clauses@),
    {
        let mut m: usize = self.clauses[0].0.len();
        let mut i: usize = 1;
        proof {
            assert(self.clauses@.take(1) =~= seq![self.clauses@[0]]);
            assert(min_clause_len(self.clauses@.take(1)) == self.clauses@[0].0@.len());
        }
        while i < self.clauses.len()
            invariant
                1 <= i <= self.clauses@.len(),
                m == min_clause_len(self.clauses@.take(i as int)),
            decreases self.clauses@.len() - i,
        {
            proof {
                assert(self.clauses@.take(i + 1int).drop_last() =~= self.clauses@.take(i as int));
                assert(self.clauses@.take(i + 1int).last() == self.clauses@[i as int]);
            }
            let l = self.clauses[i].0.len();
            if l < m {
                m = l;
            }
            i += 1;
        }
        proof {
            assert(self.clauses@.take(self.clauses@.len() as int) =~= self.clauses@);
        }
        m
    }

    /// The occurrence sum over the clauses of minimum size.
    pub fn moms(&self, var: u64) -> (r: usize)
        requires
            var <= i64::MAX,
            self.clauses@.len() >= 1,
            2 * self.clauses@.len() <= usize::MAX,
        ensures
            r == moms_at_spec(self.clauses@, var as int, min_clause_len(self.clauses@)),
            r <= 2 * self.clauses@.len(),
    {
        let m = self.min_len();
        let mut sum: usize = 0;
        let mut i: usize = 0;
        while i < self.clauses.len()
            invariant
                0 <= i <= self.clauses@.len(),
                var <= i64::MAX,
                m == min_clause_len(self.clauses@),
                sum == moms_at_spec(self.clauses@.take(i as int), var as int, m as int),
                sum <= 2 * i,
                2 * self.clauses@.len() <= usize::MAX,
            decreases self.clauses@.len() - i,
        {
            proof {
                assert(self.clauses@.take(i + 1int).drop_last() =~= self.clauses@.take(i as int));
                assert(self.clauses@.take(i + 1int).last() == self.clauses@[i as int]);
            }
            if self.clauses[i].0.len() == m {
                sum += self.clauses[i].occurrence(var);
            }
            i += 1;
        }
        proof {
            assert(self.clauses@.take(self.clauses@.len() as int) =~= self.clauses@);
        }
        sum
    }

    /// The sum of the occurrence heuristics over all clauses and over the
    /// clauses of minimum size.
    pub fn mams(&self, var: u64) -> (r: usize)
        requires
            var <= i64::MAX,
            self.clauses@.len() >= 1,
            4 * self.clauses@.len() <= usize::MAX,
        ensures
            r == maxo_spec(self.clauses@, var as int) + moms_at_spec(
                self.clauses@,
                var as int,
                min_clause_len(self.clauses@),
            ),
    {
        let a = self.maxo(var);
        let b = self.moms(var);
        a + b
    }

    /// Every literal names a variable of the declared range.
    pub open spec fn vars_declared(self) -> bool {
        forall|c: int, i: int|
            0 <= c < self.clauses@.len() && 0 <= i < self.clauses@[c].0@.len() ==> 1 <= lit_var(
                #[trigger] self.clauses@[c].0@[i] as int,
            ) <= self.num_vars
    }

    /// Transforms the CNF into its structural hypergraph: each clause
    /// becomes one net listing its variables (duplicates kept), each
    /// variable becomes one vertex, numbered from one.  The chosen
    /// heuristic decides the vertex weights and nothing else.
    pub fn to_graph(&self, heuristic: VariableHeuristic) -> (r: Graph)
        requires
            self.num_vars <= usize::MAX,
            forall|c: int, i: int|
                0 <= c < self.clauses@.len() && 0 <= i < self.clauses@[c].0@.len() ==> lit_var(
                    #[trigger] self.clauses@[c].0@[i] as int,
                ) <= usize::MAX,
            heuristic != VariableHeuristic::Uniform ==> {
                &&& self.num_vars >= 1
                &&& self.num_vars <= i64::MAX
                &&& 4 * self.clauses@.len() <= usize::MAX
            },
            heuristic == VariableHeuristic::MOMS || heuristic == VariableHeuristic::MAMS
                ==> self.clauses@.len() >= 1,
        ensures
            r.header.num_nets == self.clauses@.len(),
            r.header.num_vertices == self.num_vars,
            r.header.one_indexed == true,
            r.nets@.len() == self.clauses@.len(),
            forall|c: int|
                0 <= c < self.clauses@.len() ==> #[trigger] r.nets@[c].0@.len()
                    == self.clauses@[c].0@.len(),
            forall|c: int, i: int|
                0 <= c < self.clauses@.len() && 0 <= i < self.clauses@[c].0@.len()
                    ==> #[trigger] r.nets@[c].0@[i] == lit_var(self.clauses@[c].0@[i] as int),
            r.net_weights@.len() == 0,
            heuristic == VariableHeuristic::Uniform ==> r.header.format == Format::Unweighted
                && r.vertex_weights@.len() == 0,
            heuristic != VariableHeuristic::Uniform ==> {
                &&& r.header.format == Format::VertexWeights
                &&& r.vertex_weights@.len() == self.num_vars
                &&& forall|v: int|
                    0 <= v < self.num_vars ==> #[trigger] r.vertex_weights@[v] == scaled_weight(
                        heuristic_value(*self, heuristic, v + 1),
                    )
            },
            self.vars_declared() ==> r.wf(),
    {
        let mut nets: Vec<Net> = Vec::new();
        let mut c: usize = 0;
        while c < self.clauses.len()
            invariant
                0 <= c <= self.clauses@.len(),
                nets@.len() == c,
                forall|k: int|
                    0 <= k < c ==> #[trigger] nets@[k].0@.len() == self.clauses@[k].0@.len(),
                forall|k: int, i: int|
                    0 <= k < c && 0 <= i < self.clauses@[k].0@.len() ==> #[trigger] nets@[k].0@[i]
                        == lit_var(self.clauses@[k].0@[i] as int),
                forall|c2: int, i: int|
                    0 <= c2 < self.clauses@.len() && 0 <= i < self.clauses@[c2].0@.len()
                        ==> lit_var(#[trigger] self.clauses@[c2].0@[i] as int) <= usize::MAX,
            decreases self.clauses@.len() - c,
        {
            let clause = &self.clauses[c];
            let mut net: Vec<usize> = Vec::new();
            let mut i: usize = 0;
            while i < clause.0.len()
                invariant
                    0 <= i <= clause.0@.len(),
                    0 <= c < self.clauses@.len(),
                    clause == &self.clauses@[c as int],
                    net@.len() == i,
                    forall|k: int|
                        0 <= k < i ==> #[trigger] net@[k] == lit_var(clause.0@[k] as int),
                    forall|k: int|
                        0 <= k < clause.0@.len() ==> lit_var(#[trigger] clause.0@[k] as int)
                            <= usize::MAX,
                decreases clause.0@.len() - i,
            {
                let l = clause.0[i];
                let v: usize = if l >= 0 {
                    l as usize
                } else {
                    (-(l as i128)) as usize
                };
                proof {
                    assert(v == lit_var(l as int));
                }
                net.push(v);
                i += 1;
            }
            nets.push(Net(net));
            c += 1;
        }
        let num_nets = nets.len();
        let num_vertices: usize = self.num_vars as usize;
        if matches!(heuristic, VariableHeuristic::Uniform) {
            let r = Graph {
                header: Header {
                    num_nets,
                    num_vertices,
                    format: Format::Unweighted,
                    one_indexed: true,
                },
                vertex_weights: Vec::new(),
                net_weights: Vec::new(),
                nets,
            };
            proof {
                if self.vars_declared() {
                    assert forall|n: int, j: int|
                        0 <= n < r.nets@.len() && 0 <= j < r.nets@[n].0@.len() implies r.base()
                        <= #[trigger] r.nets@[n].0@[j] < r.base() + r.header.num_vertices by {
                        assert(r.nets@[n].0@[j] == lit_var(self.clauses@[n].0@[j] as int));
                    }
                }
            }
            return r;
        }
        // Calculate one weight per vertex using the chosen heuristic.
        let mut weights: Vec<usize> = Vec::new();
        let mut v0: usize = 0;
        while v0 < num_vertices
            invariant
                0 <= v0 <= num_vertices,
                num_vertices == self.num_vars,
                heuristic != VariableHeuristic::Uniform,
                heuristic == VariableHeuristic::MOMS || heuristic == VariableHeuristic::MAMS
                    ==> self.clauses@.len() >= 1,
                self.num_vars >= 1,
                self.num_vars <= i64::MAX,
                4 * self.clauses@.len() <= usize::MAX,
                weights@.len() == v0,
                forall|v: int|
                    0 <= v < v0 ==> #[trigger] weights@[v] == heuristic_value(
                        *self,
                        heuristic,
                        v + 1,
                    ),
            decreases num_vertices - v0,
        {
            let vertex = v0 + 1;
            let w: usize = match heuristic {
                VariableHeuristic::Uniform => 0,
                VariableHeuristic::MAXO => self.maxo(vertex as u64),
                VariableHeuristic::MOMS => self.moms(vertex as u64),
                VariableHeuristic::MAMS => self.mams(vertex as u64),
            };
            weights.push(w);
            v0 += 1;
        }
        // Scale each weight relative to the maximum representable one.
        let mut vertex_weights: Vec<Weight> = Vec::new();
        let mut v: usize = 0;
        while v < weights.len()
            invariant
                0 <= v <= weights@.len(),
                vertex_weights@.len() == v,
                forall|k: int|
                    0 <= k < v ==> #[trigger] vertex_weights@[k] == scaled_weight(
                        weights@[k] as int,
                    ),
            decreases weights@.len() - v,
        {
            let w = weights[v];
            let low: Weight = (w % 65536) as Weight;
            let adapted: Weight = 65535 - low;
            let scaled: Weight = if adapted == 0 {
                1
            } else {
                adapted
            };
            vertex_weights.push(scaled);
            v += 1;
        }
        let r = Graph {
            header: Header {
                num_nets,
                num_vertices,
                format: Format::VertexWeights,
                one_indexed: true,
            },
            vertex_weights,
            net_weights: Vec::new(),
            nets,
        };
        proof {
            if self.vars_declared() {
                assert forall|n: int, j: int|
                    0 <= n < r.nets@.len() && 0 <= j < r.nets@[n].0@.len() implies r.base()
                    <= #[trigger] r.nets@[n].0@[j] < r.base() + r.header.num_vertices by {
                    assert(r.nets@[n].0@[j] == lit_var(self.clauses@[n].0@[j] as int));
                }
            }
        }
        r
    }
}

/// Builds the structural hypergraph of a CNF under the chosen
/// vertex-weight heuristic.
pub fn build_hypergraph(cnf: &Cnf, heuristic: VariableHeuristic) -> (r: Graph)
    requires
        cnf.num_vars <= usize::MAX,
        forall|c: int, i: int|
            0 <= c < cnf.clauses@.len() && 0 <= i < cnf.clauses@[c].0@.len() ==> lit_var(
                #[trigger] cnf.clauses@[c].0@[i] as int,
            ) <= usize::MAX,
        heuristic != VariableHeuristic::Uniform ==> {
            &&& cnf.num_vars >= 1
            &&& cnf.num_vars <= i64::MAX
            &&& 4 * cnf.clauses@.len() <= usize::MAX
        },
        heuristic == VariableHeuristic::MOMS || heuristic == VariableHeuristic::MAMS
            ==> cnf.clauses@.len() >= 1,
    ensures
        r.header.num_nets == cnf.clauses@.len(),
        r.header.num_vertices == cnf.num_vars,
        r.header.one_indexed == true,
        r.nets@.len() == cnf.clauses@.len(),
        forall|c: int|
            0 <= c < cnf.clauses@.len() ==> #[trigger] r.nets@[c].0@.len()
                == cnf.clauses@[c].0@.len(),
        forall|c: int, i: int|
            0 <= c < cnf.clauses@.len() && 0 <= i < cnf.clauses@[c].0@.len()
                ==> #[trigger] r.nets@[c].0@[i] == lit_var(cnf.clauses@[c].0@[i] as int),
        r.net_weights@.len() == 0,
        heuristic == VariableHeuristic::Uniform ==> r.header.format == Format::Unweighted
            && r.vertex_weights@.len() == 0,
        heuristic != VariableHeuristic::Uniform ==> {
            &&& r.header.format == Format::VertexWeights
            &&& r.vertex_weights@.len() == cnf.num_vars
            &&& forall|v: int|
                0 <= v < cnf.num_vars ==> #[trigger] r.vertex_weights@[v] == scaled_weight(
                    heuristic_value(*cnf, heuristic, v + 1),
                )
        },
        cnf.vars_declared() ==> r.wf(),
{
    cnf.to_graph(heuristic)
}

/// The occurrence sum is bounded by twice the clause count.
proof fn lemma_maxo_bound(clauses: Seq<CnfClause>, v: int)
    ensures
        0 <= maxo_spec(clauses, v) <= 2 * clauses.len(),
    decreases clauses.len(),
{
    if clauses.len() > 0 {
        lemma_maxo_bound(clauses.drop_last(), v);
    }
}

} // verus!
