//! The bridge between CNF formulas and partitions: splitting a formula
//! along a partition of its clauses, computing the cut variables shared by
//! the fragments, conditioning on an assignment of the cut, and the
//! textual form handed to external solvers.

use vstd::prelude::*;

use crate::cnf::{lit_var, Cnf, CnfClause};
use crate::partition::Partition;
use crate::text::{append_dec, append_lit, dec_chars, lit_chars};
use vstd::multiset::Multiset;
use vstd::string::StringExecFns;

verus! {

/// The literal sequences of a clause sequence.
pub open spec fn clause_views(cs: Seq<CnfClause>) -> Seq<Seq<i64>> {
    cs.map_values(|c: CnfClause| c.0@)
}

/// Appending a clause appends its literal sequence to the views.
pub proof fn lemma_clause_views_push(cs: Seq<CnfClause>, c: CnfClause)
    ensures
        clause_views(cs.push(c)) == clause_views(cs).push(c.0@),
{
    assert(clause_views(cs.push(c)) =~= clause_views(cs).push(c.0@)) by {
        assert forall|k: int| 0 <= k < cs.len() + 1 implies clause_views(cs.push(c))[k]
            == clause_views(cs).push(c.0@)[k] by {
            if k < cs.len() {
                assert(cs.push(c)[k] == cs[k]);
            } else {
                assert(cs.push(c)[k] == c);
            }
        }
    }
}

/// A sequence of variable ids in strictly ascending order.
pub open spec fn strictly_increasing_u64(s: Seq<u64>) -> bool {
    forall|i: int, j: int| 0 <= i < j < s.len() ==> s[i] < s[j]
}

/// Whether a clause holds a literal of the variable `v`.
pub open spec fn clause_mentions(c: CnfClause, v: int) -> bool {
    exists|t: int| 0 <= t < c.0@.len() && lit_var(#[trigger] c.0@[t] as int) == v
}

/// Whether a CNF mentions the variable `v` in any clause.
pub open spec fn cnf_has_var(c: Cnf, v: int) -> bool {
    exists|i: int| 0 <= i < c.clauses@.len() && clause_mentions(#[trigger] c.clauses@[i], v)
}

/// The literal sequences of the clauses that a partition routes to block
/// `b`, in clause order.
pub open spec fn clauses_of_block(cs: Seq<CnfClause>, part: Seq<usize>, b: usize) -> Seq<Seq<i64>>
    decreases cs.len(),
{
    if cs.len() == 0 || part.len() < cs.len() {
        Seq::empty()
    } else {
        let rest = clauses_of_block(cs.drop_last(), part.drop_last(), b);
        if part[cs.len() - 1] == b {
            rest.push(cs.last().0@)
        } else {
            rest
        }
    }
}

/// Checks whether a block list contains the given block.
fn contains_block(v: &Vec<usize>, x: usize) -> (r: bool)
    ensures
        r == v@.contains(x),
{
    let mut i: usize = 0;
    while i < v.len()
        invariant
            0 <= i <= v@.len(),
            forall|k: int| 0 <= k < i ==> v@[k] != x,
        decreases v@.len() - i,
    {
        if v[i] == x {
            return true;
        }
        i += 1;
    }
    false
}

/// The distinct block ids of a partition, in ascending order.
pub fn distinct_blocks(part: &Partition) -> (r: Vec<usize>)
    ensures
        crate::graph::strictly_increasing(r@),
        forall|b: usize| #[trigger] r@.contains(b) <==> part.0@.contains(b),
{
    let mut r: Vec<usize> = Vec::new();
    let mut i: usize = 0;
    while i < part.0.len()
        invariant
            0 <= i <= part.0@.len(),
            crate::graph::strictly_increasing(r@),
            forall|b: usize| #[trigger] r@.contains(b) <==> part.0@.take(i as int).contains(b),
        decreases part.0@.len() - i,
    {
        let b = part.0[i];
        let ghost pre = r@;
        if !contains_block(&r, b) {
            // Insert b at its sorted position.
            let mut p: usize = 0;
            while p < r.len() && r[p] < b
                invariant
                    0 <= p <= r@.len(),
                    forall|k: int| 0 <= k < p ==> #[trigger] r@[k] < b,
                decreases r@.len() - p,
            {
                p += 1;
            }
            proof {
                assert forall|k: int| p <= k < r@.len() implies b < #[trigger] r@[k] by {
                    if k == p {
                        assert(r@[k] != b);
                    } else {
                        assert(r@[p as int] <= r@[k]);
                        assert(r@[p as int] != b);
                        if r@[k] == b {
                            assert(r@[p as int] < b);
                        }
                    }
                }
            }
            r.insert(p, b);
            proof {
                assert(r@ == pre.insert(p as int, b));
                assert(crate::graph::strictly_increasing(r@)) by {
                    assert forall|x: int, y: int|
                        0 <= x < y < r@.len() implies r@[x] < r@[y] by {
                        if x < p && y < p {
                            assert(r@[x] == pre[x]);
                            assert(r@[y] == pre[y]);
                        } else if x < p && y == p {
                            assert(r@[x] == pre[x]);
                        } else if x < p && y > p {
                            assert(r@[x] == pre[x]);
                            assert(r@[y] == pre[y - 1]);
                        } else if x == p && y > p {
                            assert(r@[y] == pre[y - 1]);
                        } else {
                            assert(r@[x] == pre[x - 1]);
                            assert(r@[y] == pre[y - 1]);
                        }
                    }
                }
                assert forall|bb: usize| #[trigger] r@.contains(bb) implies (pre.contains(bb) || bb
                    == b) by {
                    let k = choose|k: int| 0 <= k < r@.len() && r@[k] == bb;
                    if k < p {
                        assert(pre[k] == bb);
                    } else if k > p {
                        assert(pre[k - 1] == bb);
                    }
                }
                assert forall|bb: usize| pre.contains(bb) implies r@.contains(bb) by {
                    let k = choose|k: int| 0 <= k < pre.len() && pre[k] == bb;
                    if k < p {
                        assert(r@[k] == bb);
                    } else {
                        assert(r@[k + 1] == bb);
                    }
                }
                assert(r@[p as int] == b);
                assert(r@.contains(b));
            }
        }
        proof {
            assert(part.0@.take(i + 1int).drop_last() =~= part.0@.take(i as int));
            assert(part.0@.take(i + 1int).last() == b);
            assert forall|bb: usize| #[trigger] r@.contains(bb) implies part.0@.take(
                i + 1int,
            ).contains(bb) by {
                if pre.contains(bb) || bb == b {
                    if bb == b {
                        assert(part.0@.take(i + 1int)[i as int] == b);
                    } else {
                        assert(part.0@.take(i as int).contains(bb));
                        let k = choose|k: int|
                            0 <= k < part.0@.take(i as int).len() && part.0@.take(i as int)[k]
                                == bb;
                        assert(part.0@.take(i + 1int)[k] == bb);
                    }
                }
            }
            assert forall|bb: usize| part.0@.take(i + 1int).contains(bb) implies r@.contains(
                bb,
            ) by {
                let k = choose|k: int|
                    0 <= k < part.0@.take(i + 1int).len() && #[trigger] part.0@.take(i + 1int)[k]
                        == bb;
                if k < i {
                    assert(part.0@.take(i as int)[k] == bb);
                    assert(part.0@.take(i as int).contains(bb));
                    assert(pre.contains(bb));
                } else {
                    assert(bb == b);
                    assert(r@.contains(b));
                }
            }
        }
        i += 1;
    }
    proof {
        assert(part.0@.take(part.0@.len() as int) =~= part.0@);
    }
    r
}

/// Copies a clause's literal list.
fn copy_clause(c: &CnfClause) -> (r: CnfClause)
    ensures
        r.0@ == c.0@,
{
    let mut lits: Vec<i64> = Vec::new();
    let mut i: usize = 0;
    while i < c.0.len()
        invariant
            0 <= i <= c.0@.len(),
            lits@ == c.0@.take(i as int),
        decreases c.0@.len() - i,
    {
        lits.push(c.0[i]);
        assert(c.0@.take(i + 1int) =~= c.0@.take(i as int).push(c.0@[i as int]));
        i += 1;
    }
    assert(c.0@.take(c.0@.len() as int) =~= c.0@);
    CnfClause(lits)
}

/// Splits a CNF along a partition of its clauses: each clause goes to the
/// fragment of its block, fragments appear in ascending order of block id,
/// and only blocks holding at least one clause produce a fragment.
///
/// Together the fragments hold exactly the original clause multiset;
/// `lemma_split_preserves_clauses` states and proves this.
pub fn split_cnf(partition: &Partition, original: &Cnf) -> (r: Vec<Cnf>)
    requires
        partition.0@.len() == original.clauses@.len(),
    ensures
        exists|bs: Seq<usize>|
            {
                &&& crate::graph::strictly_increasing(bs)
                &&& (forall|b: usize| #[trigger] bs.contains(b) <==> partition.0@.contains(b))
                &&& r@.len() == bs.len()
                &&& forall|j: int|
                    0 <= j < r@.len() ==> (#[trigger] r@[j]).num_vars == original.num_vars
                        && clause_views(r@[j].clauses@) == clauses_of_block(
                        original.clauses@,
                        partition.0@,
                        bs[j],
                    )
            },
{
    let bs = distinct_blocks(partition);
    let mut r: Vec<Cnf> = Vec::new();
    let mut j: usize = 0;
    while j < bs.len()
        invariant
            0 <= j <= bs@.len(),
            partition.0@.len() == original.clauses@.len(),
            r@.len() == j,
            forall|k: int|
                0 <= k < j ==> (#[trigger] r@[k]).num_vars == original.num_vars && clause_views(
                    r@[k].clauses@,
                ) == clauses_of_block(original.clauses@, partition.0@, bs@[k]),
        decreases bs@.len() - j,
    {
        let b = bs[j];
        let mut clauses: Vec<CnfClause> = Vec::new();
        let mut i: usize = 0;
        while i < original.clauses.len()
            invariant
                0 <= i <= original.clauses@.len(),
                partition.0@.len() == original.clauses@.len(),
                clause_views(clauses@) == clauses_of_block(
                    original.clauses@.take(i as int),
                    partition.0@.take(i as int),
                    b,
                ),
            decreases original.clauses@.len() - i,
        {
            proof {
                assert(original.clauses@.take(i + 1int).drop_last() =~= original.clauses@.take(
                    i as int,
                ));
                assert(partition.0@.take(i + 1int).drop_last() =~= partition.0@.take(i as int));
                assert(original.clauses@.take(i + 1int).last() == original.clauses@[i as int]);
                assert(partition.0@.take(i + 1int)[original.clauses@.take(i + 1int).len() - 1]
                    == partition.0@[i as int]);
            }
            if partition.0[i] == b {
                let ghost pre = clauses@;
                clauses.push(copy_clause(&original.clauses[i]));
                proof {
                    assert(clause_views(clauses@) =~= clause_views(pre).push(
                        original.clauses@[i as int].0@,
                    ));
                }
            }
            i += 1;
        }
        proof {
            assert(original.clauses@.take(original.clauses@.len() as int)
                =~= original.clauses@);
            assert(partition.0@.take(partition.0@.len() as int) =~= partition.0@);
        }
        r.push(Cnf { num_vars: original.num_vars, clauses });
        j += 1;
    }
    proof {
        assert(crate::graph::strictly_increasing(bs@));
        assert(forall|b: usize| #[trigger] bs@.contains(b) <==> partition.0@.contains(b));
    }
    r
}

/// The ascending, duplicate-free set of variables mentioned by a CNF.
pub fn get_instance_variables(instance: &Cnf) -> (r: Vec<u64>)
    ensures
        strictly_increasing_u64(r@),
        forall|v: u64| #[trigger] r@.contains(v) <==> cnf_has_var(*instance, v as int),
{
    let mut r: Vec<u64> = Vec::new();
    let mut c: usize = 0;
    while c < instance.clauses.len()
        invariant
            0 <= c <= instance.clauses@.len(),
            strictly_increasing_u64(r@),
            forall|v: u64| #[trigger] r@.contains(v) <==> exists|k: int, i: int|
                0 <= k < c && 0 <= i < instance.clauses@[k].0@.len() && lit_var(
                    #[trigger] instance.clauses@[k].0@[i] as int,
                ) == v,
        decreases instance.clauses@.len() - c,
    {
        let clause = &instance.clauses[c];
        let mut i: usize = 0;
        while i < clause.0.len()
            invariant
                0 <= i <= clause.0@.len(),
                0 <= c < instance.clauses@.len(),
                clause == &instance.clauses@[c as int],
                strictly_increasing_u64(r@),
                forall|v: u64| #[trigger] r@.contains(v) <==> exists|k: int, t: int|
                    0 <= k < instance.clauses@.len() && 0 <= t < instance.clauses@[k].0@.len() && (
                    k < c || (k == c && t < i)) && lit_var(
                        #[trigger] instance.clauses@[k].0@[t] as int,
                    ) == v,
            decreases clause.0@.len() - i,
        {
            let l = clause.0[i];
            let v: u64 = if l >= 0 {
                l as u64
            } else {
                (-(l as i128)) as u64
            };
            proof {
                assert(v == lit_var(l as int));
            }
            insert_sorted_u64(&mut r, v);
            i += 1;
        }
        c += 1;
    }
    proof {
        assert forall|v: u64| #[trigger] r@.contains(v) implies cnf_has_var(*instance, v as int) by {
            let (k, t) = choose|k: int, t: int|
                0 <= k < instance.clauses@.len() && 0 <= t < instance.clauses@[k].0@.len() && (k
                    < instance.clauses@.len()) && lit_var(instance.clauses@[k].0@[t] as int) == v;
            assert(clause_mentions(instance.clauses@[k], v as int));
        }
        assert forall|v: u64| cnf_has_var(*instance, v as int) implies #[trigger] r@.contains(
            v,
        ) by {
            let k = choose|k: int|
                0 <= k < instance.clauses@.len() && clause_mentions(
                    #[trigger] instance.clauses@[k],
                    v as int,
                );
            let cl = instance.clauses@[k];
            let t = choose|t: int| 0 <= t < cl.0@.len() && lit_var(#[trigger] cl.0@[t] as int) == v;
            assert(lit_var(instance.clauses@[k].0@[t] as int) == v);
        }
    }
    r
}

/// Inserts a variable into an ascending duplicate-free list, keeping it
/// ascending and duplicate-free.
fn insert_sorted_u64(r: &mut Vec<u64>, v: u64)
    requires
        strictly_increasing_u64(old(r)@),
    ensures
        strictly_increasing_u64(final(r)@),
        forall|x: u64| #[trigger] final(r)@.contains(x) <==> (old(r)@.contains(x) || x == v),
{
    let ghost pre = r@;
    let mut p: usize = 0;
    while p < r.len() && r[p] < v
        invariant
            0 <= p <= r@.len(),
            r@ == pre,
            forall|k: int| 0 <= k < p ==> #[trigger] r@[k] < v,
        decreases r@.len() - p,
    {
        p += 1;
    }
    if p < r.len() && r[p] == v {
        proof {
            assert(r@[p as int] == v);
            assert(r@.contains(v));
        }
        return ;
    }
    proof {
        assert forall|k: int| p <= k < r@.len() implies v < #[trigger] r@[k] by {
            if k == p {
                assert(r@[k] != v);
                assert(!(r@[k] < v));
            } else {
                assert(r@[p as int] <= r@[k]);
                assert(!(r@[p as int] < v));
                assert(r@[p as int] != v);
                if r@[k] == v {
                    assert(r@[p as int] < v);
                }
            }
        }
    }
    r.insert(p, v);
    proof {
        assert(r@ == pre.insert(p as int, v));
        assert(strictly_increasing_u64(r@)) by {
            assert forall|x: int, y: int| 0 <= x < y < r@.len() implies r@[x] < r@[y] by {
                if x < p && y < p {
                    assert(r@[x] == pre[x]);
                    assert(r@[y] == pre[y]);
                } else if x < p && y == p {
                    assert(r@[x] == pre[x]);
                } else if x < p && y > p {
                    assert(r@[x] == pre[x]);
                    assert(r@[y] == pre[y - 1]);
                } else if x == p && y > p {
                    assert(r@[y] == pre[y - 1]);
                } else {
                    assert(r@[x] == pre[x - 1]);
                    assert(r@[y] == pre[y - 1]);
                }
            }
        }
        assert forall|x: u64| #[trigger] r@.contains(x) implies (pre.contains(x) || x == v) by {
            let k = choose|k: int| 0 <= k < r@.len() && r@[k] == x;
            if k < p {
                assert(pre[k] == x);
            } else if k > p {
                assert(pre[k - 1] == x);
            }
        }
        assert forall|x: u64| pre.contains(x) implies r@.contains(x) by {
            let k = choose|k: int| 0 <= k < pre.len() && pre[k] == x;
            if k < p {
                assert(r@[k] == x);
            } else {
                assert(r@[k + 1] == x);
            }
        }
        assert(r@[p as int] == v);
        assert(r@.contains(v));
    }
}

/// How many of the given CNF fragments mention the variable `v`.
pub open spec fn count_containing(frags: Seq<Cnf>, v: int) -> int
    decreases frags.len(),
{
    if frags.len() == 0 {
        0
    } else {
        count_containing(frags.drop_last(), v) + if cnf_has_var(frags.last(), v) {
            1int
        } else {
            0int
        }
    }
}

/// Calculates the cut between multiple CNF instances: the ascending,
/// duplicate-free set of the variables that at least two instances
/// mention.
///
/// The cut is a function of the fragment collection alone, whatever order
/// the fragments come in; `lemma_cut_symmetric` states and proves this.
pub fn get_cut_variables(instances: &Vec<Cnf>) -> (r: Vec<u64>)
    ensures
        strictly_increasing_u64(r@),
        forall|v: u64| #[trigger] r@.contains(v) <==> count_containing(instances@, v as int) >= 2,
{
    // The variable sets of the fragments, each ascending and
    // duplicate-free.
    let mut varsets: Vec<Vec<u64>> = Vec::new();
    let mut i: usize = 0;
    while i < instances.len()
        invariant
            0 <= i <= instances@.len(),
            varsets@.len() == i,
            forall|k: int|
                0 <= k < i ==> strictly_increasing_u64(#[trigger] varsets@[k]@) && (forall|v: u64|
                    varsets@[k]@.contains(v) <==> cnf_has_var(instances@[k], v as int)),
        decreases instances@.len() - i,
    {
        varsets.push(get_instance_variables(&instances[i]));
        i += 1;
    }
    let mut cut: Vec<u64> = Vec::new();
    let mut i2: usize = 0;
    // Walk the union of the variable sets; a variable enters the cut when
    // a second fragment mentions it.
    while i2 < varsets.len()
        invariant
            0 <= i2 <= varsets@.len(),
            varsets@.len() == instances@.len(),
            forall|k: int|
                0 <= k < varsets@.len() ==> strictly_increasing_u64(#[trigger] varsets@[k]@) && (
                forall|v: u64| varsets@[k]@.contains(v) <==> cnf_has_var(instances@[k], v as int)),
            strictly_increasing_u64(cut@),
            forall|v: u64| #[trigger] cut@.contains(v) <==> exists|a: int, b: int|
                0 <= a < b < i2 && cnf_has_var(#[trigger] instances@[a], v as int) && cnf_has_var(
                    #[trigger] instances@[b],
                    v as int,
                ),
        decreases varsets@.len() - i2,
    {
        let vs = &varsets[i2];
        let mut t: usize = 0;
        while t < vs.len()
            invariant
                0 <= t <= vs@.len(),
                0 <= i2 < varsets@.len(),
                vs == &varsets@[i2 as int],
                varsets@.len() == instances@.len(),
                forall|k: int|
                    0 <= k < varsets@.len() ==> strictly_increasing_u64(#[trigger] varsets@[k]@)
                        && (forall|v: u64|
                        varsets@[k]@.contains(v) <==> cnf_has_var(instances@[k], v as int)),
                strictly_increasing_u64(cut@),
                forall|v: u64| #[trigger] cut@.contains(v) <==> (exists|a: int, b: int|
                    0 <= a < b < i2 && cnf_has_var(#[trigger] instances@[a], v as int)
                        && cnf_has_var(#[trigger] instances@[b], v as int)) || (exists|a: int|
                    0 <= a < i2 && cnf_has_var(#[trigger] instances@[a], v as int) && vs@.take(
                        t as int,
                    ).contains(v)),
            decreases vs@.len() - t,
        {
            let v = vs[t];
            proof {
                assert(vs@.contains(v));
                assert(cnf_has_var(instances@[i2 as int], v as int));
            }
            // Does any earlier fragment mention v as well?
            let mut a: usize = 0;
            let mut found: bool = false;
            while a < i2
                invariant
                    0 <= a <= i2,
                    i2 < varsets@.len(),
                    varsets@.len() == instances@.len(),
                    forall|k: int|
                        0 <= k < varsets@.len() ==> strictly_increasing_u64(
                            #[trigger] varsets@[k]@,
                        ) && (forall|vv: u64|
                            varsets@[k]@.contains(vv) <==> cnf_has_var(instances@[k], vv as int)),
                    found <==> exists|k: int|
                        0 <= k < a && cnf_has_var(#[trigger] instances@[k], v as int),
                decreases i2 - a,
            {
                if !found {
                    if contains_var(&varsets[a], v) {
                        found = true;
                        proof {
                            assert(cnf_has_var(instances@[a as int], v as int));
                        }
                    }
                }
                a += 1;
            }
            let ghost pre_cut = cut@;
            if found {
                insert_sorted_u64(&mut cut, v);
            }
            proof {
                assert(vs@.take(t + 1int) =~= vs@.take(t as int).push(v));
                assert forall|vv: u64| #[trigger] cut@.contains(vv) implies ((exists|x: int, b: int|
                    0 <= x < b < i2 && cnf_has_var(#[trigger] instances@[x], vv as int)
                        && cnf_has_var(#[trigger] instances@[b], vv as int)) || (exists|x: int|
                    0 <= x < i2 && cnf_has_var(#[trigger] instances@[x], vv as int) && vs@.take(
                        t + 1int,
                    ).contains(vv))) by {
                    if found && vv == v {
                        let k = choose|k: int|
                            0 <= k < i2 && cnf_has_var(#[trigger] instances@[k], v as int);
                        assert(vs@.take(t + 1int)[t as int] == v);
                        assert(vs@.take(t + 1int).contains(v));
                    } else {
                        assert(pre_cut.contains(vv));
                        if exists|x: int|
                            0 <= x < i2 && cnf_has_var(#[trigger] instances@[x], vv as int)
                                && vs@.take(t as int).contains(vv) {
                            let x = choose|x: int|
                                0 <= x < i2 && cnf_has_var(#[trigger] instances@[x], vv as int)
                                    && vs@.take(t as int).contains(vv);
                            let kk = choose|kk: int|
                                0 <= kk < vs@.take(t as int).len() && #[trigger] vs@.take(
                                    t as int,
                                )[kk] == vv;
                            assert(vs@.take(t + 1int)[kk] == vv);
                            assert(vs@.take(t + 1int).contains(vv));
                        }
                    }
                }
                assert forall|vv: u64|
                    ((exists|x: int, b: int|
                        0 <= x < b < i2 && cnf_has_var(#[trigger] instances@[x], vv as int)
                            && cnf_has_var(#[trigger] instances@[b], vv as int)) || (exists|x: int|
                        0 <= x < i2 && cnf_has_var(#[trigger] instances@[x], vv as int)
                            && vs@.take(t + 1int).contains(vv))) implies #[trigger] cut@.contains(
                    vv,
                ) by {
                    if exists|x: int|
                        0 <= x < i2 && cnf_has_var(#[trigger] instances@[x], vv as int) && vs@.take(
                            t + 1int,
                        ).contains(vv) {
                        let kk = choose|kk: int|
                            0 <= kk < vs@.take(t + 1int).len() && #[trigger] vs@.take(t + 1int)[kk]
                                == vv;
                        if kk < t {
                            assert(vs@.take(t as int)[kk] == vv);
                            assert(vs@.take(t as int).contains(vv));
                            assert(pre_cut.contains(vv));
                        } else {
                            assert(vv == v);
                            assert(found);
                        }
                        if found {
                            assert(cut@.contains(v));
                        }
                    } else {
                        assert(pre_cut.contains(vv));
                    }
                }
            }
            t += 1;
        }
        proof {
            assert(vs@.take(vs@.len() as int) =~= vs@);
            assert forall|vv: u64| #[trigger] cut@.contains(vv) implies (exists|a: int, b: int|
                0 <= a < b < i2 + 1 && cnf_has_var(#[trigger] instances@[a], vv as int)
                    && cnf_has_var(#[trigger] instances@[b], vv as int)) by {
                if exists|a: int|
                    0 <= a < i2 && cnf_has_var(#[trigger] instances@[a], vv as int)
                        && vs@.contains(vv) {
                    let a = choose|a: int|
                        0 <= a < i2 && cnf_has_var(#[trigger] instances@[a], vv as int)
                            && vs@.contains(vv);
                    assert(cnf_has_var(instances@[i2 as int], vv as int));
                }
            }
            assert forall|vv: u64|
                (exists|a: int, b: int|
                    0 <= a < b < i2 + 1 && cnf_has_var(#[trigger] instances@[a], vv as int)
                        && cnf_has_var(#[trigger] instances@[b], vv as int)) implies #[trigger] cut@.contains(
                vv,
            ) by {
                let (a, b) = choose|a: int, b: int|
                    0 <= a < b < i2 + 1 && cnf_has_var(#[trigger] instances@[a], vv as int)
                        && cnf_has_var(#[trigger] instances@[b], vv as int);
                if b < i2 {
                } else {
                    assert(b == i2);
                    assert(varsets@[i2 as int]@.contains(vv));
                }
            }
        }
        i2 += 1;
    }
    proof {
        lemma_pair_iff_count(instances@, cut@);
    }
    cut
}

/// Checks whether an ascending variable list contains the given variable.
fn contains_var(v: &Vec<u64>, x: u64) -> (r: bool)
    ensures
        r == v@.contains(x),
{
    let mut i: usize = 0;
    while i < v.len()
        invariant
            0 <= i <= v@.len(),
            forall|k: int| 0 <= k < i ==> v@[k] != x,
        decreases v@.len() - i,
    {
        if v[i] == x {
            return true;
        }
        i += 1;
    }
    false
}

/// The multiset union of the clause lists of a fragment sequence.
pub open spec fn frags_clause_multiset(frags: Seq<Cnf>) -> Multiset<Seq<i64>>
    decreases frags.len(),
{
    if frags.len() == 0 {
        Multiset::empty()
    } else {
        frags_clause_multiset(frags.drop_last()).add(
            clause_views(frags.last().clauses@).to_multiset(),
        )
    }
}

/// The multiset union of the per-block clause lists over a block id list.
pub open spec fn blocks_clause_multiset(cs: Seq<CnfClause>, part: Seq<usize>, bs: Seq<usize>)
    -> Multiset<Seq<i64>>
    decreases bs.len(),
{
    if bs.len() == 0 {
        Multiset::empty()
    } else {
        blocks_clause_multiset(cs, part, bs.drop_last()).add(
            clauses_of_block(cs, part, bs.last()).to_multiset(),
        )
    }
}

/// With no clauses, every block's clause list is empty.
proof fn lemma_blocks_multiset_empty(cs: Seq<CnfClause>, part: Seq<usize>, bs: Seq<usize>)
    requires
        cs.len() == 0,
        part.len() == 0,
    ensures
        blocks_clause_multiset(cs, part, bs) =~= Multiset::empty(),
    decreases bs.len(),
{
    broadcast use vstd::multiset::group_multiset_axioms;
    broadcast use vstd::seq_lib::group_to_multiset_ensures;

    if bs.len() > 0 {
        lemma_blocks_multiset_empty(cs, part, bs.drop_last());
        assert(clauses_of_block(cs, part, bs.last()) =~= Seq::empty());
        assert(Seq::<Seq<i64>>::empty().to_multiset() =~= Multiset::empty());
    }
}

/// Dropping the last clause takes one clause out of exactly one block's
/// multiset.
proof fn lemma_blocks_multiset_step(cs: Seq<CnfClause>, part: Seq<usize>, bs: Seq<usize>)
    requires
        cs.len() >= 1,
        part.len() == cs.len(),
        bs.no_duplicates(),
    ensures
        blocks_clause_multiset(cs, part, bs) =~= if bs.contains(part[cs.len() - 1]) {
            blocks_clause_multiset(cs.drop_last(), part.drop_last(), bs).insert(cs.last().0@)
        } else {
            blocks_clause_multiset(cs.drop_last(), part.drop_last(), bs)
        },
    decreases bs.len(),
{
    broadcast use vstd::multiset::group_multiset_axioms;
    broadcast use vstd::seq_lib::group_to_multiset_ensures;

    let p = part[cs.len() - 1];
    if bs.len() == 0 {
        if bs.contains(p) {
            let k = choose|k: int| 0 <= k < bs.len() && bs[k] == p;
            assert(false);
        }
    } else {
        let b = bs.last();
        let bsr = bs.drop_last();
        assert(bsr.no_duplicates());
        lemma_blocks_multiset_step(cs, part, bsr);
        if b == p {
            assert(!bsr.contains(p)) by {
                if bsr.contains(p) {
                    let k = choose|k: int| 0 <= k < bsr.len() && bsr[k] == p;
                    assert(bs[k] == p);
                    assert(bs[bs.len() - 1] == p);
                }
            }
            assert(bs.contains(p)) by {
                assert(bs[bs.len() - 1] == p);
            }
            assert(clauses_of_block(cs, part, b) == clauses_of_block(
                cs.drop_last(),
                part.drop_last(),
                b,
            ).push(cs.last().0@));
            assert(clauses_of_block(cs, part, b).to_multiset() =~= clauses_of_block(
                cs.drop_last(),
                part.drop_last(),
                b,
            ).to_multiset().insert(cs.last().0@));
        } else {
            assert(clauses_of_block(cs, part, b) == clauses_of_block(
                cs.drop_last(),
                part.drop_last(),
                b,
            ));
            if bs.contains(p) {
                assert(bsr.contains(p)) by {
                    let k = choose|k: int| 0 <= k < bs.len() && bs[k] == p;
                    assert(k < bs.len() - 1);
                    assert(bsr[k] == p);
                }
            }
            if bsr.contains(p) {
                let k = choose|k: int| 0 <= k < bsr.len() && bsr[k] == p;
                assert(bs[k] == p);
                assert(bs.contains(p));
            }
        }
    }
}

/// The block-wise clause multisets together hold every clause exactly
/// once.
proof fn lemma_blocks_multiset_total(cs: Seq<CnfClause>, part: Seq<usize>, bs: Seq<usize>)
    requires
        part.len() == cs.len(),
        bs.no_duplicates(),
        forall|b: usize| part.contains(b) ==> bs.contains(b),
    ensures
        blocks_clause_multiset(cs, part, bs) =~= clause_views(cs).to_multiset(),
    decreases cs.len(),
{
    broadcast use vstd::multiset::group_multiset_axioms;
    broadcast use vstd::seq_lib::group_to_multiset_ensures;

    if cs.len() == 0 {
        lemma_blocks_multiset_empty(cs, part, bs);
        assert(clause_views(cs) =~= Seq::empty());
        assert(Seq::<Seq<i64>>::empty().to_multiset() =~= Multiset::empty());
    } else {
        let p = part[cs.len() - 1];
        assert(part.contains(p)) by {
            assert(part[cs.len() - 1] == p);
        }
        assert(bs.contains(p));
        lemma_blocks_multiset_step(cs, part, bs);
        assert(forall|b: usize| part.drop_last().contains(b) ==> part.contains(b)) by {
            assert forall|b: usize| part.drop_last().contains(b) implies part.contains(b) by {
                let k = choose|k: int|
                    0 <= k < part.drop_last().len() && part.drop_last()[k] == b;
                assert(part[k] == b);
            }
        }
        lemma_blocks_multiset_total(cs.drop_last(), part.drop_last(), bs);
        assert(clause_views(cs) =~= clause_views(cs.drop_last()).push(cs.last().0@));
        assert(clause_views(cs).to_multiset() =~= clause_views(
            cs.drop_last(),
        ).to_multiset().insert(cs.last().0@));
    }
}

/// The fragments' clause multisets are the block-wise ones.
proof fn lemma_frags_multiset(cs: Seq<CnfClause>, part: Seq<usize>, frags: Seq<Cnf>, bs: Seq<usize>)
    requires
        frags.len() == bs.len(),
        forall|j: int|
            0 <= j < frags.len() ==> clause_views((#[trigger] frags[j]).clauses@)
                == clauses_of_block(cs, part, bs[j]),
    ensures
        frags_clause_multiset(frags) =~= blocks_clause_multiset(cs, part, bs),
    decreases frags.len(),
{
    if frags.len() > 0 {
        lemma_frags_multiset(cs, part, frags.drop_last(), bs.drop_last());
        assert(frags.drop_last().len() == bs.drop_last().len());
        assert(clause_views(frags.last().clauses@) == clauses_of_block(
            cs,
            part,
            bs[frags.len() - 1],
        ));
    }
}

/// Law: splitting a CNF along a partition of its clauses, then putting all
/// fragment clause lists together again, reproduces the original clause
/// multiset exactly: no clause is lost, none is duplicated.
pub proof fn lemma_split_preserves_clauses(
    cs: Seq<CnfClause>,
    part: Seq<usize>,
    frags: Seq<Cnf>,
    bs: Seq<usize>,
)
    requires
        part.len() == cs.len(),
        bs.no_duplicates(),
        forall|b: usize| part.contains(b) ==> bs.contains(b),
        frags.len() == bs.len(),
        forall|j: int|
            0 <= j < frags.len() ==> clause_views((#[trigger] frags[j]).clauses@)
                == clauses_of_block(cs, part, bs[j]),
    ensures
        frags_clause_multiset(frags) == clause_views(cs).to_multiset(),
{
    lemma_frags_multiset(cs, part, frags, bs);
    lemma_blocks_multiset_total(cs, part, bs);
}

/// A strictly ascending block id list never repeats a block.
pub proof fn lemma_increasing_no_duplicates(bs: Seq<usize>)
    requires
        crate::graph::strictly_increasing(bs),
    ensures
        bs.no_duplicates(),
{
}

/// Removing one fragment takes away exactly its contribution to the
/// containment count.
proof fn lemma_count_containing_remove(frags: Seq<Cnf>, i: int, v: int)
    requires
        0 <= i < frags.len(),
    ensures
        count_containing(frags.remove(i), v) == count_containing(frags, v) - (if cnf_has_var(
            frags[i],
            v,
        ) {
            1int
        } else {
            0int
        }),
    decreases frags.len(),
{
    if i == frags.len() - 1 {
        assert(frags.remove(i) =~= frags.drop_last());
    } else {
        assert(frags.remove(i).drop_last() =~= frags.drop_last().remove(i));
        assert(frags.remove(i).last() == frags.last());
        lemma_count_containing_remove(frags.drop_last(), i, v);
        assert(frags.drop_last()[i] == frags[i]);
    }
}

/// The containment count depends on the fragments alone, not their order.
pub proof fn lemma_count_containing_permutation(a: Seq<Cnf>, b: Seq<Cnf>, v: int)
    requires
        a.to_multiset() == b.to_multiset(),
    ensures
        count_containing(a, v) == count_containing(b, v),
    decreases a.len(),
{
    broadcast use vstd::seq_lib::group_to_multiset_ensures;
    broadcast use vstd::multiset::group_multiset_axioms;

    if a.len() == 0 {
        assert(a.to_multiset().len() == a.len());
        assert(b.to_multiset().len() == b.len());
        assert(b.len() == 0);
    } else {
        let x = a.last();
        assert(a =~= a.drop_last().push(x));
        assert(a.to_multiset().count(x) >= 1) by {
            assert(a.contains(x)) by {
                assert(a[a.len() - 1] == x);
            }
        }
        assert(b.to_multiset().count(x) >= 1);
        assert(b.contains(x));
        let i = choose|i: int| 0 <= i < b.len() && b[i] == x;
        assert(a.drop_last() =~= a.remove(a.len() - 1));
        assert(a.remove(a.len() - 1).to_multiset() =~= a.to_multiset().remove(x));
        assert(b.remove(i).to_multiset() =~= b.to_multiset().remove(x));
        lemma_count_containing_permutation(a.drop_last(), b.remove(i), v);
        lemma_count_containing_remove(b, i, v);
    }
}

/// Two strictly ascending variable lists with the same members are equal.
pub proof fn lemma_sorted_vars_unique(a: Seq<u64>, b: Seq<u64>)
    requires
        strictly_increasing_u64(a),
        strictly_increasing_u64(b),
        forall|x: u64| a.contains(x) <==> b.contains(x),
    ensures
        a == b,
    decreases a.len(),
{
    if a.len() == 0 {
        if b.len() > 0 {
            assert(b.contains(b[0]));
            assert(a.contains(b[0]));
            assert(false);
        }
        assert(a =~= b);
    } else {
        assert(a.contains(a[0]));
        assert(b.contains(a[0]));
        assert(b.len() > 0);
        assert(b.contains(b[0]));
        assert(a.contains(b[0]));
        let i = choose|i: int| 0 <= i < b.len() && b[i] == a[0];
        let j = choose|j: int| 0 <= j < a.len() && a[j] == b[0];
        assert(b[0] <= b[i]);
        assert(a[0] <= a[j]);
        assert(a[0] == b[0]);
        let at = a.drop_first();
        let bt = b.drop_first();
        assert forall|x: u64| at.contains(x) implies bt.contains(x) by {
            let k = choose|k: int| 0 <= k < at.len() && at[k] == x;
            assert(a[k + 1] == x);
            assert(a.contains(x));
            assert(b.contains(x));
            assert(x > a[0]);
            let l = choose|l: int| 0 <= l < b.len() && b[l] == x;
            assert(l != 0);
            assert(bt[l - 1] == x);
        }
        assert forall|x: u64| bt.contains(x) implies at.contains(x) by {
            let k = choose|k: int| 0 <= k < bt.len() && bt[k] == x;
            assert(b[k + 1] == x);
            assert(b.contains(x));
            assert(a.contains(x));
            assert(x > b[0]);
            let l = choose|l: int| 0 <= l < a.len() && a[l] == x;
            assert(l != 0);
            assert(at[l - 1] == x);
        }
        lemma_sorted_vars_unique(at, bt);
        assert(a.len() == b.len());
        assert forall|k: int| 0 <= k < a.len() implies a[k] == b[k] by {
            if k > 0 {
                assert(a[k] == at[k - 1]);
                assert(b[k] == bt[k - 1]);
                assert(at[k - 1] == bt[k - 1]);
            }
        }
        assert(a =~= b);
    }
}

/// Law: cut-variable computation is symmetric and deterministic.  Any two
/// ascending, duplicate-free cut lists computed from the same fragments in
/// any order are equal.
pub proof fn lemma_cut_symmetric(a: Seq<Cnf>, b: Seq<Cnf>, ca: Seq<u64>, cb: Seq<u64>)
    requires
        a.to_multiset() == b.to_multiset(),
        strictly_increasing_u64(ca),
        strictly_increasing_u64(cb),
        forall|v: u64| #[trigger] ca.contains(v) <==> count_containing(a, v as int) >= 2,
        forall|v: u64| #[trigger] cb.contains(v) <==> count_containing(b, v as int) >= 2,
    ensures
        ca == cb,
{
    assert forall|v: u64| ca.contains(v) <==> cb.contains(v) by {
        lemma_count_containing_permutation(a, b, v as int);
    }
    lemma_sorted_vars_unique(ca, cb);
}

/// The unit clauses asserting an assignment, one per literal, in order.
pub open spec fn unit_views(asg: Seq<i32>) -> Seq<Seq<i64>> {
    Seq::new(asg.len(), |i: int| seq![asg[i] as i64])
}

/// Whether the formula or the assignment mentions the variable `v`.
pub open spec fn present_var(cnf: Cnf, asg: Seq<i32>, v: int) -> bool {
    cnf_has_var(cnf, v) || exists|i: int| 0 <= i < asg.len() && lit_var(#[trigger] asg[i] as int)
        == v
}

/// One positive unit clause for every declared variable up to `n` that
/// neither the formula nor the assignment mentions, ascending.
pub open spec fn missing_units(cnf: Cnf, asg: Seq<i32>, n: int) -> Seq<Seq<i64>>
    decreases n,
{
    if n <= 0 {
        Seq::empty()
    } else {
        missing_units(cnf, asg, n - 1) + (if present_var(cnf, asg, n) {
            Seq::empty()
        } else {
            seq![seq![n as i64]]
        })
    }
}

/// Checks whether the formula mentions the variable.
fn cnf_mentions(instance: &Cnf, v: u64) -> (r: bool)
    ensures
        r == cnf_has_var(*instance, v as int),
{
    let mut c: usize = 0;
    while c < instance.clauses.len()
        invariant
            0 <= c <= instance.clauses@.len(),
            forall|k: int|
                0 <= k < c ==> !clause_mentions(#[trigger] instance.clauses@[k], v as int),
        decreases instance.clauses@.len() - c,
    {
        let clause = &instance.clauses[c];
        let mut i: usize = 0;
        while i < clause.0.len()
            invariant
                0 <= i <= clause.0@.len(),
                0 <= c < instance.clauses@.len(),
                clause == &instance.clauses@[c as int],
                forall|t: int| 0 <= t < i ==> lit_var(#[trigger] clause.0@[t] as int) != v,
            decreases clause.0@.len() - i,
        {
            let l = clause.0[i];
            let m: u64 = if l >= 0 {
                l as u64
            } else {
                (-(l as i128)) as u64
            };
            if m == v {
                proof {
                    assert(lit_var(clause.0@[i as int] as int) == v);
                    assert(clause_mentions(instance.clauses@[c as int], v as int));
                }
                return true;
            }
            i += 1;
        }
        proof {
            if clause_mentions(instance.clauses@[c as int], v as int) {
                let t = choose|t: int|
                    0 <= t < clause.0@.len() && lit_var(#[trigger] clause.0@[t] as int)
                        == v as int;
                assert(false);
            }
        }
        c += 1;
    }
    proof {
        if cnf_has_var(*instance, v as int) {
            let k = choose|k: int|
                0 <= k < instance.clauses@.len() && clause_mentions(
                    #[trigger] instance.clauses@[k],
                    v as int,
                );
            assert(false);
        }
    }
    false
}

/// Checks whether the assignment mentions the variable.
fn assignment_mentions(asg: &Vec<i32>, v: u64) -> (r: bool)
    ensures
        r == exists|i: int| 0 <= i < asg@.len() && lit_var(#[trigger] asg@[i] as int) == v,
{
    let mut i: usize = 0;
    while i < asg.len()
        invariant
            0 <= i <= asg@.len(),
            forall|k: int| 0 <= k < i ==> lit_var(#[trigger] asg@[k] as int) != v,
        decreases asg@.len() - i,
    {
        let a = asg[i];
        let m: u64 = if a >= 0 {
            a as u64
        } else {
            (-(a as i64)) as u64
        };
        if m == v {
            proof {
                assert(lit_var(asg@[i as int] as int) == v);
            }
            return true;
        }
        i += 1;
    }
    proof {
        if exists|k: int| 0 <= k < asg@.len() && lit_var(#[trigger] asg@[k] as int) == v {
            let k = choose|k: int| 0 <= k < asg@.len() && lit_var(#[trigger] asg@[k] as int) == v;
            assert(false);
        }
    }
    false
}

/// Conditions a CNF instance on the provided assignment by adding each
/// literal as a unit clause; additionally adds one positive unit clause
/// for every declared variable that neither the assignment nor the formula
/// mentions, ascending.
pub fn condition_instance(instance: &Cnf, assignment: &Vec<i32>) -> (r: Cnf)
    requires
        instance.num_vars <= i64::MAX,
    ensures
        r.num_vars == instance.num_vars,
        clause_views(r.clauses@) == clause_views(instance.clauses@) + unit_views(assignment@)
            + missing_units(*instance, assignment@, instance.num_vars as int),
{
    let mut clauses: Vec<CnfClause> = Vec::new();
    let mut i: usize = 0;
    while i < instance.clauses.len()
        invariant
            0 <= i <= instance.clauses@.len(),
            clause_views(clauses@) == clause_views(instance.clauses@.take(i as int)),
        decreases instance.clauses@.len() - i,
    {
        let ghost pre = clauses@;
        let cc = copy_clause(&instance.clauses[i]);
        proof {
            lemma_clause_views_push(pre, cc);
            lemma_clause_views_push(
                instance.clauses@.take(i as int),
                instance.clauses@[i as int],
            );
            assert(instance.clauses@.take(i + 1int) =~= instance.clauses@.take(i as int).push(
                instance.clauses@[i as int],
            ));
        }
        clauses.push(cc);
        proof {
            assert(clause_views(clauses@) =~= clause_views(instance.clauses@.take(i + 1int)));
        }
        i += 1;
    }
    proof {
        assert(instance.clauses@.take(instance.clauses@.len() as int) =~= instance.clauses@);
    }
    let ghost base = clause_views(instance.clauses@);
    let mut a: usize = 0;
    while a < assignment.len()
        invariant
            0 <= a <= assignment@.len(),
            clause_views(clauses@) == base + unit_views(assignment@.take(a as int)),
            clause_views(clauses@) == clause_views(instance.clauses@) + unit_views(
                assignment@.take(a as int),
            ),
        decreases assignment@.len() - a,
    {
        let lit: i64 = assignment[a] as i64;
        let mut unit: Vec<i64> = Vec::new();
        unit.push(lit);
        let uc = CnfClause(unit);
        let ghost pre = clauses@;
        clauses.push(uc);
        proof {
            lemma_clause_views_push(pre, uc);
            assert(uc.0@ =~= seq![assignment@[a as int] as i64]);
            assert(unit_views(assignment@.take(a + 1int)) =~= unit_views(
                assignment@.take(a as int),
            ).push(seq![assignment@[a as int] as i64]));
            assert(clause_views(clauses@) =~= base + unit_views(assignment@.take(a + 1int)));
        }
        a += 1;
    }
    proof {
        assert(assignment@.take(assignment@.len() as int) =~= assignment@);
    }
    let ghost base2 = base + unit_views(assignment@);
    let n: u64 = instance.num_vars;
    let mut v0: u64 = 0;
    while v0 < n
        invariant
            0 <= v0 <= n,
            n == instance.num_vars,
            n <= i64::MAX,
            clause_views(clauses@) == base2 + missing_units(*instance, assignment@, v0 as int),
        decreases n - v0,
    {
        let v = v0 + 1;
        let present = cnf_mentions(instance, v) || assignment_mentions(assignment, v);
        proof {
            assert(present == present_var(*instance, assignment@, v as int));
        }
        if !present {
            let mut unit: Vec<i64> = Vec::new();
            unit.push(v as i64);
            let uc = CnfClause(unit);
            let ghost pre = clauses@;
            clauses.push(uc);
            proof {
                lemma_clause_views_push(pre, uc);
                assert(uc.0@ =~= seq![v as i64]);
                assert(missing_units(*instance, assignment@, v as int) =~= missing_units(
                    *instance,
                    assignment@,
                    v0 as int,
                ).push(seq![v as i64]));
                assert(clause_views(clauses@) =~= base2 + missing_units(
                    *instance,
                    assignment@,
                    v as int,
                ));
            }
        } else {
            proof {
                assert(missing_units(*instance, assignment@, v as int) =~= missing_units(
                    *instance,
                    assignment@,
                    v0 as int,
                ));
                assert(clause_views(clauses@) =~= base2 + missing_units(
                    *instance,
                    assignment@,
                    v as int,
                ));
            }
        }
        v0 = v;
    }
    Cnf { num_vars: instance.num_vars, clauses }
}

/// The error of the external satisfiability check.
#[derive(Debug, Clone, Copy, PartialEq, Eq, Structural)]
pub enum SolveError {
    /// The oracle reported the formula unsatisfiable.
    Unsatisfiable,
    /// The oracle gave up or was interrupted.
    Aborted,
}

/// A handle on the external satisfiability oracle.
#[verifier::external_body]
pub struct SatSolver {
    solver: cadical::Solver,
}

/// Whether the solver stands in the satisfied state: its last solve call
/// reported satisfiable and no clause was added since.  Only in this
/// state may a valuation be read back.
pub uninterp spec fn satisfied(s: &SatSolver) -> bool;

/// Relies on cadical::Solver::new: a fresh solver holding no clauses.
#[verifier::external_body]
fn solver_new() -> SatSolver {
    SatSolver { solver: cadical::Solver::new() }
}

/// Relies on cadical::Solver::add_clause: adds one clause to the solver.
/// Its literals must be non-zero and above the smallest representable
/// value.  Adding a clause leaves the satisfied state.
#[verifier::external_body]
fn solver_add_clause(s: &mut SatSolver, lits: &Vec<i32>)
    requires
        forall|k: int| 0 <= k < lits@.len() ==> #[trigger] lits@[k] != 0 && lits@[k] != i32::MIN,
{
    s.solver.add_clause(lits.iter().copied());
}

/// Relies on cadical::Solver::solve: reports satisfiable, unsatisfiable,
/// or that the solver gave up; which of the three depends on the solver
/// alone.  A satisfiable answer puts the solver in the satisfied state.
#[verifier::external_body]
fn solver_solve(s: &mut SatSolver) -> (r: Option<bool>)
    ensures
        r == Some(true) ==> satisfied(final(s)),
{
    s.solver.solve()
}

/// Relies on cadical::Solver::value: the literal's value in the last
/// solution, or nothing when the formula is satisfied either way.  The
/// underlying library insists on the satisfied state and aborts outside
/// it, so that state is required here.
#[verifier::external_body]
fn solver_value(s: &SatSolver, lit: i32) -> (r: Option<bool>)
    requires
        satisfied(s),
        lit != 0,
        lit != i32::MIN,
{
    s.solver.value(lit)
}

/// The solver form of a clause: the same literals, narrowed.
fn clause_to_solver_lits(c: &CnfClause) -> (r: Vec<i32>)
    requires
        forall|t: int|
            0 <= t < c.0@.len() ==> 1 <= lit_var(#[trigger] c.0@[t] as int) <= i32::MAX,
    ensures
        r@.len() == c.0@.len(),
        forall|k: int| 0 <= k < r@.len() ==> #[trigger] r@[k] == c.0@[k] as i32,
        forall|k: int| 0 <= k < r@.len() ==> #[trigger] r@[k] != 0 && r@[k] != i32::MIN,
{
    let mut r: Vec<i32> = Vec::new();
    let mut t: usize = 0;
    while t < c.0.len()
        invariant
            0 <= t <= c.0@.len(),
            forall|tt: int|
                0 <= tt < c.0@.len() ==> 1 <= lit_var(#[trigger] c.0@[tt] as int) <= i32::MAX,
            r@.len() == t,
            forall|k: int| 0 <= k < t ==> #[trigger] r@[k] == c.0@[k] as i32,
            forall|k: int| 0 <= k < t ==> #[trigger] r@[k] != 0 && r@[k] != i32::MIN,
        decreases c.0@.len() - t,
    {
        let l = c.0[t];
        proof {
            assert(1 <= lit_var(c.0@[t as int] as int) <= i32::MAX);
        }
        r.push(l as i32);
        t += 1;
    }
    r
}

/// The literal an oracle valuation stands for: the variable itself when
/// the oracle valued it positively or left it open, its negation when the
/// oracle valued it negatively.
fn valuation_literal(variable: i32, value: Option<bool>) -> (r: i32)
    requires
        1 <= variable,
    ensures
        r == (if value == Some(false) {
            -variable as int
        } else {
            variable as int
        }),
{
    match value {
        Some(false) => -variable,
        _ => variable,
    }
}

/// Searches for an assignment of the given cut set satisfying the CNF
/// instance, through the external satisfiability oracle.  On success the
/// result holds one literal per cut variable, in cut order: the variable
/// itself when the oracle valued it positively or left it open, its
/// negation otherwise.
pub fn find_assignment(instance: &Cnf, cut_set: &Vec<u64>) -> (r: Result<Vec<i32>, SolveError>)
    requires
        forall|c: int, t: int|
            0 <= c < instance.clauses@.len() && 0 <= t < instance.clauses@[c].0@.len() ==> 1
                <= lit_var(#[trigger] instance.clauses@[c].0@[t] as int) <= i32::MAX,
        forall|k: int| 0 <= k < cut_set@.len() ==> 1 <= #[trigger] cut_set@[k] <= i32::MAX,
    ensures
        match r {
            Ok(a) => {
                &&& a@.len() == cut_set@.len()
                &&& forall|k: int|
                    0 <= k < a@.len() ==> (#[trigger] a@[k] == cut_set@[k] as i32 || a@[k] == -(
                    cut_set@[k] as i32))
            },
            Err(_) => true,
        },
{
    let mut solver = solver_new();
    let mut c: usize = 0;
    while c < instance.clauses.len()
        invariant
            0 <= c <= instance.clauses@.len(),
            forall|cc: int, t: int|
                0 <= cc < instance.clauses@.len() && 0 <= t < instance.clauses@[cc].0@.len() ==> 1
                    <= lit_var(#[trigger] instance.clauses@[cc].0@[t] as int) <= i32::MAX,
        decreases instance.clauses@.len() - c,
    {
        // The solver receives exactly this clause's literals, narrowed.
        let lits = clause_to_solver_lits(&instance.clauses[c]);
        proof {
            assert(forall|k: int|
                0 <= k < lits@.len() ==> #[trigger] lits@[k]
                    == instance.clauses@[c as int].0@[k] as i32);
        }
        solver_add_clause(&mut solver, &lits);
        c += 1;
    }
    match solver_solve(&mut solver) {
        Some(true) => {
            let mut assignment: Vec<i32> = Vec::new();
            let mut k: usize = 0;
            while k < cut_set.len()
                invariant
                    0 <= k <= cut_set@.len(),
                    satisfied(&solver),
                    forall|j: int| 0 <= j < cut_set@.len() ==> 1 <= #[trigger] cut_set@[j]
                        <= i32::MAX,
                    assignment@.len() == k,
                    forall|j: int|
                        0 <= j < k ==> (#[trigger] assignment@[j] == cut_set@[j] as i32
                            || assignment@[j] == -(cut_set@[j] as i32)),
                decreases cut_set@.len() - k,
            {
                let variable: i32 = cut_set[k] as i32;
                let value = solver_value(&solver, variable);
                assignment.push(valuation_literal(variable, value));
                k += 1;
            }
            Ok(assignment)
        },
        Some(false) => Err(SolveError::Unsatisfiable),
        None => Err(SolveError::Aborted),
    }
}

/// The text of one clause: its literals separated by spaces, closed by the
/// zero sentinel and a line break.
pub open spec fn clause_chars(lits: Seq<i64>) -> Seq<char>
    decreases lits.len(),
{
    if lits.len() == 0 {
        seq!['0', '\n']
    } else {
        lit_chars(lits[0] as int) + seq![' '] + clause_chars(lits.drop_first())
    }
}

/// The text of a clause list, one line per clause.
pub open spec fn clauses_chars(cs: Seq<CnfClause>) -> Seq<char>
    decreases cs.len(),
{
    if cs.len() == 0 {
        Seq::empty()
    } else {
        clauses_chars(cs.drop_last()) + clause_chars(cs.last().0@)
    }
}

/// The textual clause-list form of a CNF: a header declaring variable and
/// clause counts, then one line per clause.
pub open spec fn cnf_chars(cnf: Cnf) -> Seq<char> {
    seq!['p', ' ', 'c', 'n', 'f', ' '] + dec_chars(cnf.num_vars as int) + seq![' '] + dec_chars(
        cnf.clauses@.len() as int,
    ) + seq!['\n'] + clauses_chars(cnf.clauses@)
}

/// Serializes a CNF literal: a minus sign for a negative one, then the
/// variable.
pub fn serialize_literal(literal: i64) -> (r: String)
    ensures
        r@ == lit_chars(literal as int),
{
    let mut out = String::new();
    append_lit(&mut out, literal);
    proof {
        assert(Seq::<char>::empty() + lit_chars(literal as int) =~= lit_chars(literal as int));
    }
    out
}

/// Serializes a CNF into its textual clause-list form.
pub fn serialize_cnf(cnf: &Cnf) -> (r: String)
    ensures
        r@ == cnf_chars(*cnf),
{
    let mut out = String::new();
    proof {
        reveal_strlit("p cnf ");
        reveal_strlit(" ");
        reveal_strlit("\n");
        reveal_strlit("0 ");
        reveal_strlit("0\n");
    }
    out.append("p cnf ");
    proof {
        assert(out@ =~= seq!['p', ' ', 'c', 'n', 'f', ' ']);
    }
    append_dec(&mut out, cnf.num_vars);
    out.append(" ");
    append_dec(&mut out, cnf.clauses.len() as u64);
    out.append("\n");
    let ghost header = out@;
    proof {
        assert(header =~= seq!['p', ' ', 'c', 'n', 'f', ' '] + dec_chars(cnf.num_vars as int)
            + seq![' '] + dec_chars(cnf.clauses@.len() as int) + seq!['\n']);
        assert(out@ =~= header + clauses_chars(cnf.clauses@.take(0)));
    }
    let mut c: usize = 0;
    while c < cnf.clauses.len()
        invariant
            0 <= c <= cnf.clauses@.len(),
            out@ == header + clauses_chars(cnf.clauses@.take(c as int)),
        decreases cnf.clauses@.len() - c,
    {
        let clause = &cnf.clauses[c];
        let ghost base_c = out@;
        let mut t: usize = 0;
        proof {
            assert(clause.0@.skip(0) =~= clause.0@);
        }
        while t < clause.0.len()
            invariant
                0 <= t <= clause.0@.len(),
                0 <= c < cnf.clauses@.len(),
                clause == &cnf.clauses@[c as int],
                out@ + clause_chars(clause.0@.skip(t as int)) == base_c + clause_chars(clause.0@),
            decreases clause.0@.len() - t,
        {
            let l = clause.0[t];
            let ghost pre = out@;
            append_lit(&mut out, l);
            out.append(" ");
            proof {
                reveal_strlit(" ");
                let tail = clause.0@.skip(t as int);
                assert(tail[0] == l);
                assert(tail.drop_first() =~= clause.0@.skip(t + 1));
                assert(clause_chars(tail) == lit_chars(l as int) + seq![' '] + clause_chars(
                    clause.0@.skip(t + 1),
                ));
                assert(out@ =~= pre + lit_chars(l as int) + seq![' ']);
                assert(out@ + clause_chars(clause.0@.skip(t + 1)) =~= pre + clause_chars(tail));
            }
            t += 1;
        }
        out.append("0\n");
        proof {
            reveal_strlit("0\n");
            assert(clause.0@.skip(clause.0@.len() as int) =~= Seq::<i64>::empty());
            assert(clause_chars(Seq::<i64>::empty()) =~= seq!['0', '\n']);
            assert(out@ =~= base_c + clause_chars(clause.0@));
            assert(cnf.clauses@.take(c + 1int).drop_last() =~= cnf.clauses@.take(c as int));
            assert(cnf.clauses@.take(c + 1int).last() == cnf.clauses@[c as int]);
            assert(out@ =~= header + clauses_chars(cnf.clauses@.take(c + 1int)));
        }
        c += 1;
    }
    proof {
        assert(cnf.clauses@.take(cnf.clauses@.len() as int) =~= cnf.clauses@);
        assert(cnf_chars(*cnf) =~= header + clauses_chars(cnf.clauses@));
    }
    out
}

/// Two fragments mention a variable exactly when at least two of the
/// fragment-containment counts accumulate.
proof fn lemma_pair_iff_count(frags: Seq<Cnf>, cut: Seq<u64>)
    requires
        forall|v: u64| #[trigger] cut.contains(v) <==> exists|a: int, b: int|
            0 <= a < b < frags.len() && cnf_has_var(#[trigger] frags[a], v as int) && cnf_has_var(
                #[trigger] frags[b],
                v as int,
            ),
    ensures
        forall|v: u64| #[trigger] cut.contains(v) <==> count_containing(frags, v as int) >= 2,
{
    assert forall|v: u64| #[trigger] cut.contains(v) <==> count_containing(frags, v as int)
        >= 2 by {
        lemma_count_pair(frags, v as int);
    }
}

/// The containment count reaches two exactly when two distinct fragments
/// mention the variable.
proof fn lemma_count_pair(frags: Seq<Cnf>, v: int)
    ensures
        count_containing(frags, v) >= 2 <==> exists|a: int, b: int|
            0 <= a < b < frags.len() && cnf_has_var(#[trigger] frags[a], v) && cnf_has_var(
                #[trigger] frags[b],
                v,
            ),
        count_containing(frags, v) >= 1 <==> exists|a: int|
            0 <= a < frags.len() && cnf_has_var(#[trigger] frags[a], v),
        count_containing(frags, v) >= 0,
    decreases frags.len(),
{
    if frags.len() == 0 {
    } else {
        let rest = frags.drop_last();
        lemma_count_pair(rest, v);
        let last = frags.len() - 1;
        assert forall|a: int|
            0 <= a < rest.len() && cnf_has_var(#[trigger] rest[a], v) implies cnf_has_var(
            frags[a],
            v,
        ) by {}
        if count_containing(frags, v) >= 2 {
            if cnf_has_var(frags.last(), v) {
                let a = choose|a: int| 0 <= a < rest.len() && cnf_has_var(#[trigger] rest[a], v);
                assert(cnf_has_var(frags[a], v));
                assert(cnf_has_var(frags[last], v));
            } else {
                let (a, b) = choose|a: int, b: int|
                    0 <= a < b < rest.len() && cnf_has_var(#[trigger] rest[a], v) && cnf_has_var(
                        #[trigger] rest[b],
                        v,
                    );
                assert(cnf_has_var(frags[a], v) && cnf_has_var(frags[b], v));
            }
        }
        if exists|a: int, b: int|
            0 <= a < b < frags.len() && cnf_has_var(#[trigger] frags[a], v) && cnf_has_var(
                #[trigger] frags[b],
                v,
            ) {
            let (a, b) = choose|a: int, b: int|
                0 <= a < b < frags.len() && cnf_has_var(#[trigger] frags[a], v) && cnf_has_var(
                    #[trigger] frags[b],
                    v,
                );
            if b < last {
                assert(cnf_has_var(rest[a], v) && cnf_has_var(rest[b], v));
            } else {
                assert(cnf_has_var(rest[a], v));
            }
        }
        if count_containing(frags, v) >= 1 && count_containing(rest, v) >= 1 {
            let a = choose|a: int| 0 <= a < rest.len() && cnf_has_var(#[trigger] rest[a], v);
            assert(cnf_has_var(frags[a], v));
        }
        if cnf_has_var(frags.last(), v) {
            assert(cnf_has_var(frags[last], v));
        }
        if exists|a: int| 0 <= a < frags.len() && cnf_has_var(#[trigger] frags[a], v) {
            let a = choose|a: int| 0 <= a < frags.len() && cnf_has_var(#[trigger] frags[a], v);
            if a < last {
                assert(cnf_has_var(rest[a], v));
            }
        }
    }
}

} // verus!

