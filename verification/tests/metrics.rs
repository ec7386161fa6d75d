use cnf_partitioner::{
    clause_density, clause_width, extract_clauses, extract_literals, extract_variables,
    num_clauses, num_literals, num_variables, to_csv, Cnf, CnfClause,
};

fn clause(lits: &[i64]) -> CnfClause {
    CnfClause(lits.to_vec())
}

fn original() -> Cnf {
    Cnf {
        num_vars: 4,
        clauses: vec![clause(&[1, 2, 3]), clause(&[-2, 4]), clause(&[3, -4])],
    }
}

fn fragments() -> Vec<Cnf> {
    vec![
        Cnf { num_vars: 4, clauses: vec![clause(&[1, 2, 3])] },
        Cnf { num_vars: 4, clauses: vec![clause(&[-2, 4]), clause(&[3, -4])] },
    ]
}

#[test]
fn clause_counts() {
    let (orig, split) = num_clauses(&original(), &fragments());
    assert_eq!(orig, 3);
    assert_eq!(split, vec![1, 2]);
}

#[test]
fn variable_counts() {
    let (orig, split) = num_variables(&original(), &fragments());
    assert_eq!(orig, 4);
    assert_eq!(split, vec![3, 3]);
}

#[test]
fn literal_counts() {
    // Distinct literals of the original: 1, 2, 3, -2, 4, -4.
    let (orig, split) = num_literals(&original(), &fragments());
    assert_eq!(orig, 6);
    assert_eq!(split, vec![3, 4]);
}

#[test]
fn widths_and_density() {
    let (w, ws) = clause_width(&original(), &fragments());
    assert_eq!(w, 3);
    assert_eq!(ws, vec![3, 2]);
    let (d, ds) = clause_density(&original(), &fragments());
    assert_eq!(d, 0);
    assert_eq!(ds, vec![0, 0]);
}

#[test]
fn extractors() {
    let cnf = original();
    assert_eq!(extract_clauses(&cnf).len(), 3);
    assert_eq!(extract_variables(&cnf), vec![1, 2, 3, 4]);
    assert_eq!(extract_literals(&cnf), vec![-4, -2, 1, 2, 3, 4]);
}

#[test]
fn csv_line() {
    assert_eq!(to_csv((7, vec![3, 4])), "7,3;4");
    assert_eq!(to_csv((0, vec![])), "0,");
    assert_eq!(to_csv((12, vec![5])), "12,5");
}
