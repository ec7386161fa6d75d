use cnf_partitioner::{
    build_hypergraph, condition_instance, find_assignment, get_cut_variables,
    get_instance_variables, serialize_cnf, serialize_literal, split_cnf, Cnf, CnfClause, Format,
    Partition, VariableHeuristic,
};

fn clause(lits: &[i64]) -> CnfClause {
    CnfClause(lits.to_vec())
}

fn chain_cnf() -> Cnf {
    // (x1 v x2) (x2 v x3) (x3 v x4)
    Cnf {
        num_vars: 4,
        clauses: vec![clause(&[1, 2]), clause(&[2, 3]), clause(&[3, 4])],
    }
}

#[test]
fn split_routes_clauses_by_block() {
    // End to end: blocks {0, 0, 1} split the chain into a fragment with
    // the first two clauses and one with the last, and the cut is {3}.
    let cnf = chain_cnf();
    let partition = Partition(vec![0, 0, 1]);
    let fragments = split_cnf(&partition, &cnf);
    assert_eq!(fragments.len(), 2);
    assert_eq!(fragments[0].num_vars, 4);
    assert_eq!(fragments[0].clauses.len(), 2);
    assert_eq!(fragments[0].clauses[0].0, vec![1, 2]);
    assert_eq!(fragments[0].clauses[1].0, vec![2, 3]);
    assert_eq!(fragments[1].clauses.len(), 1);
    assert_eq!(fragments[1].clauses[0].0, vec![3, 4]);

    let cut = get_cut_variables(&fragments);
    assert_eq!(cut, vec![3]);
}

#[test]
fn split_keeps_every_clause() {
    let cnf = chain_cnf();
    let partition = Partition(vec![2, 0, 2]);
    let fragments = split_cnf(&partition, &cnf);
    // Fragments come in ascending block order: block 0 then block 2.
    assert_eq!(fragments.len(), 2);
    let mut all: Vec<Vec<i64>> = Vec::new();
    for f in &fragments {
        for c in f.clauses.iter() {
            all.push(c.0.clone());
        }
    }
    all.sort();
    let mut expected = vec![vec![1, 2], vec![2, 3], vec![3, 4]];
    expected.sort();
    assert_eq!(all, expected);
}

#[test]
fn cut_of_three_fragments() {
    // Fragments with variable sets {x1, x2}, {x2, x3}, {x3, x4}: the cut
    // is {x2, x3}.
    let a = Cnf { num_vars: 4, clauses: vec![clause(&[1, 2])] };
    let b = Cnf { num_vars: 4, clauses: vec![clause(&[2, 3])] };
    let c = Cnf { num_vars: 4, clauses: vec![clause(&[3, 4])] };
    let cut = get_cut_variables(&vec![a.clone(), b.clone(), c.clone()]);
    assert_eq!(cut, vec![2, 3]);
    // The cut does not depend on the order of the fragments.
    let cut_rev = get_cut_variables(&vec![c, b, a]);
    assert_eq!(cut_rev, vec![2, 3]);
}

#[test]
fn instance_variables_are_sorted_and_unique() {
    let cnf = Cnf { num_vars: 9, clauses: vec![clause(&[4, -2]), clause(&[-4, 7])] };
    assert_eq!(get_instance_variables(&cnf), vec![2, 4, 7]);
}

#[test]
fn conditioning_appends_units() {
    // Declared variables 1..=4, clauses over {x1, x3}, assignment [x2]:
    // the result holds the original clauses, a unit for x2, and a unit
    // for x4, the only variable present nowhere.
    let cnf = Cnf { num_vars: 4, clauses: vec![clause(&[1, 3])] };
    let conditioned = condition_instance(&cnf, &vec![2]);
    assert_eq!(conditioned.num_vars, 4);
    let lits: Vec<Vec<i64>> = conditioned.clauses.iter().map(|c| c.0.clone()).collect();
    assert_eq!(lits, vec![vec![1, 3], vec![2], vec![4]]);
}

#[test]
fn conditioning_respects_negative_assignments() {
    let cnf = Cnf { num_vars: 3, clauses: vec![clause(&[1, 2])] };
    let conditioned = condition_instance(&cnf, &vec![-3]);
    let lits: Vec<Vec<i64>> = conditioned.clauses.iter().map(|c| c.0.clone()).collect();
    // The assignment mentions x3, so no filler unit is needed.
    assert_eq!(lits, vec![vec![1, 2], vec![-3]]);
}

#[test]
fn serialize_cnf_text() {
    let cnf = chain_cnf();
    assert_eq!(serialize_cnf(&cnf), "p cnf 4 3\n1 2 0\n2 3 0\n3 4 0\n");
}

#[test]
fn serialize_literal_text() {
    assert_eq!(serialize_literal(-3), "-3");
    assert_eq!(serialize_literal(12), "12");
    assert_eq!(serialize_literal(0), "0");
}

#[test]
fn solver_finds_cut_assignment() {
    let cnf = chain_cnf();
    let assignment = find_assignment(&cnf, &vec![3]).unwrap();
    assert_eq!(assignment.len(), 1);
    assert!(assignment[0] == 3 || assignment[0] == -3);
}

#[test]
fn solver_reports_unsatisfiable() {
    let cnf = Cnf { num_vars: 1, clauses: vec![clause(&[1]), clause(&[-1])] };
    assert!(find_assignment(&cnf, &vec![1]).is_err());
}

#[test]
fn hypergraph_of_cnf_topology() {
    let cnf = chain_cnf();
    let g = build_hypergraph(&cnf, VariableHeuristic::Uniform);
    assert_eq!(g.header.num_nets, 3);
    assert_eq!(g.header.num_vertices, 4);
    assert!(g.header.one_indexed);
    assert_eq!(g.header.format, Format::Unweighted);
    assert_eq!(g.nets[0].0, vec![1, 2]);
    assert_eq!(g.nets[1].0, vec![2, 3]);
    assert_eq!(g.nets[2].0, vec![3, 4]);
    assert!(g.vertex_weights.is_empty());
}

#[test]
fn hypergraph_of_cnf_weights() {
    // x2 occurs twice, x1 once: the weights are the occurrence counts
    // subtracted from the largest weight.
    let cnf = chain_cnf();
    let g = build_hypergraph(&cnf, VariableHeuristic::MAXO);
    assert_eq!(g.header.format, Format::VertexWeights);
    assert_eq!(g.vertex_weights, vec![65534, 65533, 65533, 65534]);
}

#[test]
fn heuristic_values() {
    let cnf = Cnf {
        num_vars: 3,
        clauses: vec![clause(&[1, -1, 2]), clause(&[2, 3])],
    };
    // x1 appears positively and negatively in the first clause.
    assert_eq!(cnf.maxo(1), 2);
    assert_eq!(cnf.maxo(2), 2);
    // The minimum clause size is two, so only the second clause counts.
    assert_eq!(cnf.moms(2), 1);
    assert_eq!(cnf.moms(1), 0);
    assert_eq!(cnf.mams(2), 3);
    let c = &cnf.clauses[0];
    assert_eq!(c.len(), 3);
    assert!(c.contains_positive(1));
    assert!(c.contains_negative(1));
    assert!(c.contains(2));
    assert!(!c.contains_negative(2));
    assert_eq!(c.occurrence(1), 2);
    assert_eq!(c.occurrence(2), 1);
    assert_eq!(c.occurrence(3), 0);
    assert_eq!(c.variables(), vec![1, 1, 2]);
    assert_eq!(c.literals(), &vec![1, -1, 2]);
}

#[test]
fn maxo_weights_without_clauses() {
    // The raw occurrence heuristic works on a clause-free formula: every
    // variable scores zero and keeps the largest weight.
    let cnf = Cnf { num_vars: 2, clauses: vec![] };
    let g = build_hypergraph(&cnf, VariableHeuristic::MAXO);
    assert_eq!(g.header.num_nets, 0);
    assert_eq!(g.header.num_vertices, 2);
    assert_eq!(g.header.format, Format::VertexWeights);
    assert_eq!(g.vertex_weights, vec![65535, 65535]);
}
