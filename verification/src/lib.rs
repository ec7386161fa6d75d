//! Decomposition of CNF formulas into weakly-coupled sub-formulas by
//! hypergraph partitioning.
//!
//! The crate owns a hypergraph store with traversal and partitioning
//! algorithms, a dual transform, textual exchange formats, and the bridge
//! between CNF formulas and hypergraphs: cut-variable computation, clause
//! splitting and conditioning on an assignment.

mod bridge;
mod cnf;
mod format;
mod graph;
mod hmetis;
mod hypergraph;
mod metrics;
mod mode;
mod partition;
mod patoh;
mod search;
mod strategies;
mod text;

pub use bridge::{blocks_clause_multiset, clause_mentions, lemma_increasing_no_duplicates, clause_views, clauses_of_block, cnf_chars, cnf_has_var, condition_instance, count_containing, distinct_blocks, find_assignment, frags_clause_multiset, get_cut_variables, get_instance_variables, lemma_count_containing_permutation, lemma_cut_symmetric, lemma_split_preserves_clauses, missing_units, present_var, serialize_cnf, serialize_literal, split_cnf, strictly_increasing_u64, unit_views, SolveError};
pub use cnf::{build_hypergraph, Cnf, CnfClause, VariableHeuristic};
pub use format::Format;
pub use graph::{lemma_dual_involutive, lemma_strictly_increasing_unique, strictly_increasing, Graph, Header, Net, Weight};
pub use hmetis::{hmetis_chars, hmetis_ok, hmetis_text, parse_hmetis, FromStringHMETIS, ParseError, Space, ToStringHMETIS};
pub use hypergraph::{HgError, Hypergraph, Vertex};
pub use metrics::{clause_density, clause_width, csv_chars, extract_clauses, extract_literals, extract_variables, lit_count_is, max_clause_len, num_clauses, num_literals, num_variables, to_csv, var_count_is};
pub use mode::Mode;
pub use partition::{partition_chars, Partition, PartitionManager, Tolerance};
pub use patoh::{patoh_chars, patoh_text, ToStringPATOH};
pub use search::{absorb, first_unseen, is_traversal_of, neighbors_of, traversal_order, traversal_rec, SearchCollection, SeenMarks};
pub use strategies::{assigns_chunks, chunk_block_count, chunk_size, count_val, is_chunked_traversal_partition, lemma_chunk_counts};
pub use text::{dec_chars, digits_val, lit_chars};
