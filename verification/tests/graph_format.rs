use cnf_partitioner::{Format, FromStringHMETIS, Graph, Header, Net, ToStringHMETIS, ToStringPATOH};

fn graph() -> Graph {
    Graph {
        header: Header { num_nets: 3, num_vertices: 4, format: Format::Unweighted, one_indexed: false },
        nets: vec![Net(vec![0, 1]), Net(vec![1, 2, 3]), Net(vec![0, 3])],
        vertex_weights: vec![],
        net_weights: vec![],
    }
}

#[test]
fn dual_unweighted() {
    let primal = graph();

    let dual = Graph {
        header: Header { num_nets: 4, num_vertices: 3, format: Format::Unweighted, one_indexed: false },
        nets: vec![Net(vec![0, 2]), Net(vec![0, 1]), Net(vec![1]), Net(vec![1, 2])],
        vertex_weights: vec![],
        net_weights: vec![],
    };

    assert_eq!(primal.dual(), dual);
    assert_eq!(primal.dual().dual(), primal);
}

#[test]
fn move_indices_unweighted() {
    let mut moved = graph();
    moved.move_indices(1);

    let mut expected = graph();
    expected.header.num_vertices = 5;
    expected.nets = vec![Net(vec![1, 2]), Net(vec![2, 3, 4]), Net(vec![1, 4])];

    assert_eq!(moved, expected);
}

fn graph_unweighted() -> Graph {
    Graph {
        header: Header { num_nets: 4, num_vertices: 7, format: Format::Unweighted, one_indexed: true },
        nets: vec![
            Net(vec![1, 2]),
            Net(vec![1, 7, 5, 6]),
            Net(vec![5, 6, 4]),
            Net(vec![2, 3, 4]),
        ],
        vertex_weights: vec![],
        net_weights: vec![],
    }
}

fn graph_vertex_weights() -> Graph {
    let mut g = graph_unweighted();
    g.header.format = Format::VertexWeights;
    g.vertex_weights = vec![1, 5, 2, 2, 2, 1, 3];
    g
}

#[test]
fn parse_unweighted() {
    let input = "\n% a comment\n4 7\n1 2\n% another comment\n\n1 7 5 6\n5 6 4\n2 3 4\n        ";

    assert_eq!(Graph::from_string_hmetis(input).unwrap(), graph_unweighted());
}

#[test]
fn serialize_unweighted() {
    let expected = "4 7\n1 2\n1 7 5 6\n5 6 4\n2 3 4\n";

    assert_eq!(graph_unweighted().to_string_hmetis(), expected);
}

#[test]
fn serialize_vertex_weighted() {
    let expected = "4 7 10\n1 2\n1 7 5 6\n5 6 4\n2 3 4\n1\n5\n2\n2\n2\n1\n3\n";

    assert_eq!(graph_vertex_weights().to_string_hmetis(), expected);
}

#[test]
fn graph_serialize_unweighted() {
    let expected = "0 10 3 11\n2 3 5 6 9\n0 1\n0 1 2 3\n";

    assert_eq!(
        Graph {
            header: Header { num_nets: 3, num_vertices: 10, format: Format::Unweighted, one_indexed: false },
            nets: vec![Net(vec![2, 3, 5, 6, 9]), Net(vec![0, 1]), Net(vec![0, 1, 2, 3])],
            vertex_weights: vec![],
            net_weights: vec![],
        }
        .to_string_patoh(),
        expected
    );
}

#[test]
fn parse_rejects_letters() {
    assert!(Graph::from_string_hmetis("4 7\n1 x\n").is_err());
}

#[test]
fn parse_rejects_missing_nets() {
    assert!(Graph::from_string_hmetis("% only a comment\n4 7\n").is_err());
}

#[test]
fn parse_rejects_bad_format_code() {
    assert!(Graph::from_string_hmetis("4 7 12\n1 2\n").is_err());
}

#[test]
fn serialize_net_weighted() {
    let mut g = graph_unweighted();
    g.header.format = Format::NetWeights;
    g.net_weights = vec![9, 8, 7, 6];
    let expected = "4 7 1\n9 1 2\n8 1 7 5 6\n7 5 6 4\n6 2 3 4\n";
    assert_eq!(g.to_string_hmetis(), expected);
}

#[test]
fn trim_drops_empty_nets() {
    let mut g = Graph {
        header: Header { num_nets: 3, num_vertices: 4, format: Format::NetWeights, one_indexed: false },
        nets: vec![Net(vec![0, 1]), Net(vec![]), Net(vec![2, 3])],
        vertex_weights: vec![],
        net_weights: vec![5, 6, 7],
    };
    g.trim();
    assert_eq!(g.nets, vec![Net(vec![0, 1]), Net(vec![2, 3])]);
    assert_eq!(g.net_weights, vec![5, 7]);
    assert_eq!(g.header.num_nets, 3);
}

#[test]
fn pins_and_vertices() {
    let g = graph();
    assert_eq!(g.pins(), vec![(0, 0), (1, 0), (1, 1), (2, 1), (3, 1), (0, 2), (3, 2)]);
    assert_eq!(g.pin_count(), 7);
    assert_eq!(g.vertices(), vec![0, 1, 2, 3]);
}

#[test]
fn format_dual_roles() {
    assert_eq!(Format::NetWeights.dual(), Format::VertexWeights);
    assert_eq!(Format::VertexWeights.dual(), Format::NetWeights);
    assert_eq!(Format::Unweighted.dual(), Format::Unweighted);
    assert_eq!(Format::Weighted.dual(), Format::Weighted);
    assert!(Format::Weighted.contains_vertex_weights());
    assert!(Format::Weighted.contains_net_weights());
    assert!(!Format::NetWeights.contains_vertex_weights());
    assert!(Format::NetWeights.contains_net_weights());
}

#[test]
fn dual_one_indexed() {
    let primal = Graph {
        header: Header { num_nets: 2, num_vertices: 3, format: Format::Unweighted, one_indexed: true },
        nets: vec![Net(vec![1, 2]), Net(vec![2, 3])],
        vertex_weights: vec![],
        net_weights: vec![],
    };
    let dual = primal.dual();
    assert!(dual.header.one_indexed);
    assert_eq!(dual.header.num_nets, 3);
    assert_eq!(dual.header.num_vertices, 2);
    // Vertex 2 sits in both nets, so its dual net holds both net ids,
    // ascending and shifted to the one-indexed numbering.
    assert_eq!(dual.nets, vec![Net(vec![1]), Net(vec![1, 2]), Net(vec![2])]);
    assert_eq!(primal.dual().dual(), primal);
}

#[test]
fn dual_collapses_duplicate_pins() {
    let primal = Graph {
        header: Header { num_nets: 1, num_vertices: 2, format: Format::Unweighted, one_indexed: false },
        nets: vec![Net(vec![0, 0, 1])],
        vertex_weights: vec![],
        net_weights: vec![],
    };
    // The duplicate pin of vertex 0 collapses in the dual.
    assert_eq!(primal.dual().nets, vec![Net(vec![0]), Net(vec![0])]);
}
