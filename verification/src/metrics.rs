//! Size, width and density metrics comparing a formula with its split
//! fragments, and their report line.

use vstd::prelude::*;

use crate::bridge::{cnf_has_var, get_instance_variables, strictly_increasing_u64};
use crate::cnf::{lit_var, Cnf, CnfClause};
use crate::text::{append_dec, dec_chars};
use vstd::string::StringExecFns;

verus! {

/// A sequence of literals in strictly ascending order.
pub open spec fn strictly_increasing_i64(s: Seq<i64>) -> bool {
    forall|i: int, j: int| 0 <= i < j < s.len() ==> s[i] < s[j]
}

/// Whether a CNF holds the exact literal `l` in any clause.
pub open spec fn cnf_has_lit(c: Cnf, l: i64) -> bool {
    exists|i: int| 0 <= i < c.clauses@.len() && (#[trigger] c.clauses@[i]).0@.contains(l)
}

/// The number of distinct variables of `c` is `n`: some ascending,
/// duplicate-free list of exactly its variables has that length.
pub open spec fn var_count_is(c: Cnf, n: int) -> bool {
    exists|vs: Seq<u64>|
        {
            &&& #[trigger] strictly_increasing_u64(vs)
            &&& (forall|v: u64| vs.contains(v) <==> cnf_has_var(c, v as int))
            &&& vs.len() == n
        }
}

/// The number of distinct literals of `c` is `n`.
pub open spec fn lit_count_is(c: Cnf, n: int) -> bool {
    exists|ls: Seq<i64>|
        {
            &&& #[trigger] strictly_increasing_i64(ls)
            &&& (forall|l: i64| ls.contains(l) <==> cnf_has_lit(c, l))
            &&& ls.len() == n
        }
}

/// The number of distinct variables of a CNF.
pub open spec fn distinct_var_count(c: Cnf) -> int {
    choose|n: int| var_count_is(c, n)
}

/// The number of distinct literals of a CNF.
pub open spec fn distinct_lit_count(c: Cnf) -> int {
    choose|n: int| lit_count_is(c, n)
}

/// Two strictly ascending literal lists with the same members are equal.
proof fn lemma_sorted_lits_unique(a: Seq<i64>, b: Seq<i64>)
    requires
        strictly_increasing_i64(a),
        strictly_increasing_i64(b),
        forall|x: i64| a.contains(x) <==> b.contains(x),
    ensures
        a == b,
    decreases a.len(),
{
    if a.len() == 0 {
        if b.len() > 0 {
            assert(b.contains(b[0]));
            assert(a.contains(b[0]));
            assert(false);
        }
        assert(a =~= b);
    } else {
        assert(a.contains(a[0]));
        assert(b.contains(a[0]));
        assert(b.len() > 0);
        assert(b.contains(b[0]));
        assert(a.contains(b[0]));
        let i = choose|i: int| 0 <= i < b.len() && b[i] == a[0];
        let j = choose|j: int| 0 <= j < a.len() && a[j] == b[0];
        assert(b[0] <= b[i]);
        assert(a[0] <= a[j]);
        assert(a[0] == b[0]);
        let at = a.drop_first();
        let bt = b.drop_first();
        assert forall|x: i64| at.contains(x) implies bt.contains(x) by {
            let k = choose|k: int| 0 <= k < at.len() && at[k] == x;
            assert(a[k + 1] == x);
            assert(a.contains(x));
            assert(b.contains(x));
            assert(x > a[0]);
            let l = choose|l: int| 0 <= l < b.len() && b[l] == x;
            assert(l != 0);
            assert(bt[l - 1] == x);
        }
        assert forall|x: i64| bt.contains(x) implies at.contains(x) by {
            let k = choose|k: int| 0 <= k < bt.len() && bt[k] == x;
            assert(b[k + 1] == x);
            assert(b.contains(x));
            assert(a.contains(x));
            assert(x > b[0]);
            let l = choose|l: int| 0 <= l < a.len() && a[l] == x;
            assert(l != 0);
            assert(at[l - 1] == x);
        }
        lemma_sorted_lits_unique(at, bt);
        assert(a.len() == b.len());
        assert forall|k: int| 0 <= k < a.len() implies a[k] == b[k] by {
            if k > 0 {
                assert(a[k] == at[k - 1]);
                assert(b[k] == bt[k - 1]);
                assert(at[k - 1] == bt[k - 1]);
            }
        }
        assert(a =~= b);
    }
}

/// An ascending, duplicate-free variable list settles the distinct count.
proof fn lemma_var_count(c: Cnf, vs: Seq<u64>)
    requires
        strictly_increasing_u64(vs),
        forall|v: u64| vs.contains(v) <==> cnf_has_var(c, v as int),
    ensures
        distinct_var_count(c) == vs.len(),
        var_count_is(c, vs.len() as int),
{
    assert(var_count_is(c, vs.len() as int)) by {
        assert(strictly_increasing_u64(vs) && (forall|v: u64|
            vs.contains(v) <==> cnf_has_var(c, v as int)) && vs.len() == vs.len());
    }
    let n0 = distinct_var_count(c);
    assert(var_count_is(c, n0));
    let vs2 = choose|vs2: Seq<u64>|
        {
            &&& #[trigger] strictly_increasing_u64(vs2)
            &&& (forall|v: u64| vs2.contains(v) <==> cnf_has_var(c, v as int))
            &&& vs2.len() == n0
        };
    crate::bridge::lemma_sorted_vars_unique(vs, vs2);
}

/// An ascending, duplicate-free literal list settles the distinct count.
proof fn lemma_lit_count(c: Cnf, ls: Seq<i64>)
    requires
        strictly_increasing_i64(ls),
        forall|l: i64| ls.contains(l) <==> cnf_has_lit(c, l),
    ensures
        distinct_lit_count(c) == ls.len(),
        lit_count_is(c, ls.len() as int),
{
    assert(lit_count_is(c, ls.len() as int)) by {
        assert(strictly_increasing_i64(ls) && (forall|l: i64|
            ls.contains(l) <==> cnf_has_lit(c, l)) && ls.len() == ls.len());
    }
    let n0 = distinct_lit_count(c);
    assert(lit_count_is(c, n0));
    let ls2 = choose|ls2: Seq<i64>|
        {
            &&& #[trigger] strictly_increasing_i64(ls2)
            &&& (forall|l: i64| ls2.contains(l) <==> cnf_has_lit(c, l))
            &&& ls2.len() == n0
        };
    lemma_sorted_lits_unique(ls, ls2);
}

/// The widest clause size of a clause sequence.
pub open spec fn max_clause_len(cs: Seq<CnfClause>) -> int
    decreases cs.len(),
{
    if cs.len() <= 1 {
        if cs.len() == 0 {
            0
        } else {
            cs[0].0@.len() as int
        }
    } else {
        let rest = max_clause_len(cs.drop_last());
        if cs.last().0@.len() > rest {
            cs.last().0@.len() as int
        } else {
            rest
        }
    }
}

/// All clauses of a CNF instance.
pub fn extract_clauses(instance: &Cnf) -> (r: &Vec<CnfClause>)
    ensures
        r@ == instance.clauses@,
{
    &instance.clauses
}

/// The ascending, duplicate-free variables of an instance.
pub fn extract_variables(instance: &Cnf) -> (r: Vec<u64>)
    ensures
        strictly_increasing_u64(r@),
        forall|v: u64| #[trigger] r@.contains(v) <==> cnf_has_var(*instance, v as int),
{
    get_instance_variables(instance)
}

/// The ascending, duplicate-free literals of an instance.
pub fn extract_literals(instance: &Cnf) -> (r: Vec<i64>)
    ensures
        strictly_increasing_i64(r@),
        forall|l: i64| #[trigger] r@.contains(l) <==> cnf_has_lit(*instance, l),
{
    let mut r: Vec<i64> = Vec::new();
    let mut c: usize = 0;
    while c < instance.clauses.len()
        invariant
            0 <= c <= instance.clauses@.len(),
            strictly_increasing_i64(r@),
            forall|l: i64| #[trigger] r@.contains(l) <==> exists|k: int|
                0 <= k < c && (#[trigger] instance.clauses@[k]).0@.contains(l),
        decreases instance.clauses@.len() - c,
    {
        let clause = &instance.clauses[c];
        let mut i: usize = 0;
        while i < clause.0.len()
            invariant
                0 <= i <= clause.0@.len(),
                0 <= c < instance.clauses@.len(),
                clause == &instance.clauses@[c as int],
                strictly_increasing_i64(r@),
                forall|l: i64| #[trigger] r@.contains(l) <==> (exists|k: int|
                    0 <= k < c && (#[trigger] instance.clauses@[k]).0@.contains(l)) || clause.0@.take(
                    i as int,
                ).contains(l),
            decreases clause.0@.len() - i,
        {
            let l = clause.0[i];
            insert_sorted_i64(&mut r, l);
            proof {
                assert(clause.0@.take(i + 1int) =~= clause.0@.take(i as int).push(l));
                assert forall|x: i64| clause.0@.take(i + 1int).contains(x) implies (clause.0@.take(
                    i as int,
                ).contains(x) || x == l) by {
                    let k = choose|k: int|
                        0 <= k < clause.0@.take(i + 1int).len() && #[trigger] clause.0@.take(
                            i + 1int,
                        )[k] == x;
                    if k < i {
                        assert(clause.0@.take(i as int)[k] == x);
                    }
                }
                assert forall|x: i64| clause.0@.take(i as int).contains(x) implies clause.0@.take(
                    i + 1int,
                ).contains(x) by {
                    let k = choose|k: int|
                        0 <= k < clause.0@.take(i as int).len() && #[trigger] clause.0@.take(
                            i as int,
                        )[k] == x;
                    assert(clause.0@.take(i + 1int)[k] == x);
                }
                assert(clause.0@.take(i + 1int)[i as int] == l);
                assert(clause.0@.take(i + 1int).contains(l));
            }
            i += 1;
        }
        proof {
            assert(clause.0@.take(clause.0@.len() as int) =~= clause.0@);
        }
        c += 1;
    }
    proof {
        assert forall|l: i64| #[trigger] r@.contains(l) <==> cnf_has_lit(*instance, l) by {}
    }
    r
}

/// Inserts a literal into an ascending duplicate-free list.
fn insert_sorted_i64(r: &mut Vec<i64>, v: i64)
    requires
        strictly_increasing_i64(old(r)@),
    ensures
        strictly_increasing_i64(final(r)@),
        forall|x: i64| #[trigger] final(r)@.contains(x) <==> (old(r)@.contains(x) || x == v),
{
    let ghost pre = r@;
    let mut p: usize = 0;
    while p < r.len() && r[p] < v
        invariant
            0 <= p <= r@.len(),
            r@ == pre,
            forall|k: int| 0 <= k < p ==> #[trigger] r@[k] < v,
        decreases r@.len() - p,
    {
        p += 1;
    }
    if p < r.len() && r[p] == v {
        proof {
            assert(r@[p as int] == v);
            assert(r@.contains(v));
        }
        return ;
    }
    proof {
        assert forall|k: int| p <= k < r@.len() implies v < #[trigger] r@[k] by {
            if k == p {
                assert(r@[k] != v);
                assert(!(r@[k] < v));
            } else {
                assert(r@[p as int] <= r@[k]);
                assert(!(r@[p as int] < v));
                assert(r@[p as int] != v);
                if r@[k] == v {
                    assert(r@[p as int] < v);
                }
            }
        }
    }
    r.insert(p, v);
    proof {
        assert(r@ == pre.insert(p as int, v));
        assert(strictly_increasing_i64(r@)) by {
            assert forall|x: int, y: int| 0 <= x < y < r@.len() implies r@[x] < r@[y] by {
                if x < p && y < p {
                    assert(r@[x] == pre[x]);
                    assert(r@[y] == pre[y]);
                } else if x < p && y == p {
                    assert(r@[x] == pre[x]);
                } else if x < p && y > p {
                    assert(r@[x] == pre[x]);
                    assert(r@[y] == pre[y - 1]);
                } else if x == p && y > p {
                    assert(r@[y] == pre[y - 1]);
                } else {
                    assert(r@[x] == pre[x - 1]);
                    assert(r@[y] == pre[y - 1]);
                }
            }
        }
        assert forall|x: i64| #[trigger] r@.contains(x) implies (pre.contains(x) || x == v) by {
            let k = choose|k: int| 0 <= k < r@.len() && r@[k] == x;
            if k < p {
                assert(pre[k] == x);
            } else if k > p {
                assert(pre[k - 1] == x);
            }
        }
        assert forall|x: i64| pre.contains(x) implies r@.contains(x) by {
            let k = choose|k: int| 0 <= k < pre.len() && pre[k] == x;
            if k < p {
                assert(r@[k] == x);
            } else {
                assert(r@[k + 1] == x);
            }
        }
        assert(r@[p as int] == v);
        assert(r@.contains(v));
    }
}

/// The clause counts of the original and of every fragment.
pub fn num_clauses(original: &Cnf, split: &Vec<Cnf>) -> (r: (usize, Vec<usize>))
    ensures
        r.0 == original.clauses@.len(),
        r.1@.len() == split@.len(),
        forall|j: int| 0 <= j < split@.len() ==> #[trigger] r.1@[j] == split@[j].clauses@.len(),
{
    let mut counts: Vec<usize> = Vec::new();
    let mut j: usize = 0;
    while j < split.len()
        invariant
            0 <= j <= split@.len(),
            counts@.len() == j,
            forall|k: int| 0 <= k < j ==> #[trigger] counts@[k] == split@[k].clauses@.len(),
        decreases split@.len() - j,
    {
        counts.push(split[j].clauses.len());
        j += 1;
    }
    (original.clauses.len(), counts)
}

/// The distinct-variable counts of the original and of every fragment.
pub fn num_variables(original: &Cnf, split: &Vec<Cnf>) -> (r: (usize, Vec<usize>))
    ensures
        r.0 == distinct_var_count(*original),
        r.1@.len() == split@.len(),
        forall|j: int|
            0 <= j < split@.len() ==> #[trigger] r.1@[j] == distinct_var_count(split@[j]),
{
    let vs = extract_variables(original);
    proof {
        lemma_var_count(*original, vs@);
    }
    let mut counts: Vec<usize> = Vec::new();
    let mut j: usize = 0;
    while j < split.len()
        invariant
            0 <= j <= split@.len(),
            counts@.len() == j,
            forall|k: int| 0 <= k < j ==> #[trigger] counts@[k] == distinct_var_count(split@[k]),
        decreases split@.len() - j,
    {
        let ws = extract_variables(&split[j]);
        proof {
            lemma_var_count(split@[j as int], ws@);
        }
        counts.push(ws.len());
        j += 1;
    }
    (vs.len(), counts)
}

/// The distinct-literal counts of the original and of every fragment.
pub fn num_literals(original: &Cnf, split: &Vec<Cnf>) -> (r: (usize, Vec<usize>))
    ensures
        r.0 == distinct_lit_count(*original),
        r.1@.len() == split@.len(),
        forall|j: int|
            0 <= j < split@.len() ==> #[trigger] r.1@[j] == distinct_lit_count(split@[j]),
{
    let ls = extract_literals(original);
    proof {
        lemma_lit_count(*original, ls@);
    }
    let mut counts: Vec<usize> = Vec::new();
    let mut j: usize = 0;
    while j < split.len()
        invariant
            0 <= j <= split@.len(),
            counts@.len() == j,
            forall|k: int| 0 <= k < j ==> #[trigger] counts@[k] == distinct_lit_count(split@[k]),
        decreases split@.len() - j,
    {
        let ws = extract_literals(&split[j]);
        proof {
            lemma_lit_count(split@[j as int], ws@);
        }
        counts.push(ws.len());
        j += 1;
    }
    (ls.len(), counts)
}

/// The widest clause of a non-empty clause list.
fn width(clauses: &Vec<CnfClause>) -> (r: usize)
    requires
        clauses@.len() >= 1,
    ensures
        r == max_clause_len(clauses@),
{
    let mut m: usize = clauses[0].0.len();
    let mut i: usize = 1;
    proof {
        assert(clauses@.take(1) =~= seq![clauses@[0]]);
        assert(max_clause_len(clauses@.take(1)) == clauses@[0].0@.len());
    }
    while i < clauses.len()
        invariant
            1 <= i <= clauses@.len(),
            m == max_clause_len(clauses@.take(i as int)),
        decreases clauses@.len() - i,
    {
        proof {
            assert(clauses@.take(i + 1int).drop_last() =~= clauses@.take(i as int));
            assert(clauses@.take(i + 1int).last() == clauses@[i as int]);
        }
        let l = clauses[i].0.len();
        if l > m {
            m = l;
        }
        i += 1;
    }
    proof {
        assert(clauses@.take(clauses@.len() as int) =~= clauses@);
    }
    m
}

/// The widest clause of the original and of every fragment.
pub fn clause_width(original: &Cnf, split: &Vec<Cnf>) -> (r: (usize, Vec<usize>))
    requires
        original.clauses@.len() >= 1,
        forall|j: int| 0 <= j < split@.len() ==> (#[trigger] split@[j]).clauses@.len() >= 1,
    ensures
        r.0 == max_clause_len(original.clauses@),
        r.1@.len() == split@.len(),
        forall|j: int|
            0 <= j < split@.len() ==> #[trigger] r.1@[j] == max_clause_len(split@[j].clauses@),
{
    let mut widths: Vec<usize> = Vec::new();
    let mut j: usize = 0;
    while j < split.len()
        invariant
            0 <= j <= split@.len(),
            widths@.len() == j,
            forall|k: int| 0 <= k < split@.len() ==> (#[trigger] split@[k]).clauses@.len() >= 1,
            forall|k: int|
                0 <= k < j ==> #[trigger] widths@[k] == max_clause_len(split@[k].clauses@),
        decreases split@.len() - j,
    {
        widths.push(width(&split[j].clauses));
        j += 1;
    }
    (width(&original.clauses), widths)
}

/// Whether a CNF mentions any variable at all.
pub open spec fn has_some_var(c: Cnf) -> bool {
    exists|i: int| 0 <= i < c.clauses@.len() && (#[trigger] c.clauses@[i]).0@.len() > 0
}

/// The clause count per distinct variable, rounded down, of the original
/// and of every fragment.
pub fn clause_density(original: &Cnf, split: &Vec<Cnf>) -> (r: (usize, Vec<usize>))
    requires
        has_some_var(*original),
        forall|j: int| 0 <= j < split@.len() ==> has_some_var(#[trigger] split@[j]),
    ensures
        distinct_var_count(*original) > 0,
        r.0 == original.clauses@.len() as int / distinct_var_count(*original),
        r.1@.len() == split@.len(),
        forall|j: int|
            0 <= j < split@.len() ==> distinct_var_count(#[trigger] split@[j]) > 0 && r.1@[j]
                == split@[j].clauses@.len() as int / distinct_var_count(split@[j]),
{
    let vs = extract_variables(original);
    proof {
        lemma_some_var_nonempty(*original, vs@);
        lemma_var_count(*original, vs@);
    }
    let d0 = original.clauses.len() / vs.len();
    let mut densities: Vec<usize> = Vec::new();
    let mut j: usize = 0;
    while j < split.len()
        invariant
            0 <= j <= split@.len(),
            densities@.len() == j,
            forall|k: int| 0 <= k < split@.len() ==> has_some_var(#[trigger] split@[k]),
            forall|k: int|
                0 <= k < j ==> distinct_var_count(#[trigger] split@[k]) > 0 && densities@[k]
                    == split@[k].clauses@.len() as int / distinct_var_count(split@[k]),
        decreases split@.len() - j,
    {
        let ws = extract_variables(&split[j]);
        proof {
            lemma_some_var_nonempty(split@[j as int], ws@);
            lemma_var_count(split@[j as int], ws@);
        }
        let d = split[j].clauses.len() / ws.len();
        densities.push(d);
        j += 1;
    }
    (d0, densities)
}

/// A formula that mentions a variable has a non-empty variable list.
proof fn lemma_some_var_nonempty(c: Cnf, vs: Seq<u64>)
    requires
        has_some_var(c),
        forall|v: u64| #[trigger] vs.contains(v) <==> cnf_has_var(c, v as int),
    ensures
        vs.len() > 0,
{
    let i = choose|i: int| 0 <= i < c.clauses@.len() && (#[trigger] c.clauses@[i]).0@.len() > 0;
    let l = c.clauses@[i].0@[0];
    let v = lit_var(l as int);
    assert(0 <= v <= u64::MAX) by {
        assert(i64::MIN as int <= l as int <= i64::MAX);
    }
    assert(cnf_has_var(c, v)) by {
        assert(crate::bridge::clause_mentions(c.clauses@[i], v)) by {
            assert(lit_var(c.clauses@[i].0@[0] as int) == v);
        }
    }
    assert(vs.contains(v as u64));
}

/// The report line of a metric: the original's value, a comma, then the
/// fragments' values separated by semicolons.
pub open spec fn csv_chars(original: int, split: Seq<usize>) -> Seq<char> {
    dec_chars(original) + seq![','] + semi_join(split)
}

/// Values joined by semicolons.
pub open spec fn semi_join(vs: Seq<usize>) -> Seq<char>
    decreases vs.len(),
{
    if vs.len() == 0 {
        Seq::empty()
    } else if vs.len() == 1 {
        dec_chars(vs[0] as int)
    } else {
        dec_chars(vs[0] as int) + seq![';'] + semi_join(vs.drop_first())
    }
}

/// Renders one metric's report line.
pub fn to_csv(data: (usize, Vec<usize>)) -> (r: String)
    ensures
        r@ == csv_chars(data.0 as int, data.1@),
{
    let (original, split) = data;
    let mut out = String::new();
    append_dec(&mut out, original as u64);
    proof {
        reveal_strlit(",");
        assert(Seq::<char>::empty() + dec_chars(original as int) =~= dec_chars(original as int));
    }
    out.append(",");
    let ghost head = out@;
    proof {
        assert(head =~= dec_chars(original as int) + seq![',']);
        assert(split@.skip(0) =~= split@);
    }
    let mut j: usize = 0;
    while j < split.len()
        invariant
            0 <= j <= split@.len(),
            out@ + semi_join(split@.skip(j as int)) == head + semi_join(split@),
        decreases split@.len() - j,
    {
        let v = split[j];
        let ghost pre = out@;
        append_dec(&mut out, v as u64);
        let ghost tail = split@.skip(j as int);
        proof {
            assert(tail[0] == v);
            assert(tail.drop_first() =~= split@.skip(j + 1));
        }
        if j + 1 < split.len() {
            proof {
                reveal_strlit(";");
            }
            out.append(";");
            proof {
                assert(semi_join(tail) == dec_chars(v as int) + seq![';'] + semi_join(
                    split@.skip(j + 1),
                ));
                assert(out@ =~= pre + dec_chars(v as int) + seq![';']);
                assert(out@ + semi_join(split@.skip(j + 1)) =~= pre + semi_join(tail));
            }
        } else {
            proof {
                assert(tail.len() == 1);
                assert(semi_join(tail) == dec_chars(v as int));
                assert(split@.skip(j + 1) =~= Seq::<usize>::empty());
                assert(out@ + semi_join(split@.skip(j + 1)) =~= pre + semi_join(tail));
            }
        }
        j += 1;
    }
    proof {
        assert(split@.skip(split@.len() as int) =~= Seq::<usize>::empty());
        assert(out@ + semi_join(Seq::<usize>::empty()) =~= out@);
    }
    out
}

} // verus!
