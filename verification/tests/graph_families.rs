//! The graph constructors and the laws of their families.

use rediscovery::counting::count_flags;
use rediscovery::error::{Error, GraphParameter};
use rediscovery::graph::{require_at_least, Graph};

/// Every constructor under test, with the label used in failure messages.
fn fixtures() -> Vec<(&'static str, Graph)> {
    vec![
        (
            "path_star(4,4)",
            Graph::path_star(4, 4).expect("path_star(4,4)"),
        ),
        ("grid(4,4)", Graph::grid(4, 4).expect("grid(4,4)")),
        ("cycle(15)", Graph::cycle(15).expect("cycle(15)")),
        ("irregular()", Graph::irregular().expect("irregular()")),
        (
            "tree_star(3,3)",
            Graph::tree_star(3, 3).expect("tree_star(3,3)"),
        ),
        ("complete(7)", Graph::complete(7).expect("complete(7)")),
    ]
}

fn joined(graph: &Graph, u: usize, v: usize) -> bool {
    *graph.adjacency().at(u, v)
}

#[test]
fn constructors_have_the_specified_node_and_edge_counts() {
    let cases: [(&str, Graph, usize, usize); 6] = [
        (
            "path_star(4,4)",
            Graph::path_star(4, 4).expect("path_star(4,4)"),
            17,
            16,
        ),
        ("grid(4,4)", Graph::grid(4, 4).expect("grid(4,4)"), 16, 24),
        ("cycle(15)", Graph::cycle(15).expect("cycle(15)"), 15, 15),
        (
            "irregular()",
            Graph::irregular().expect("irregular()"),
            15,
            18,
        ),
        (
            "tree_star(3,3)",
            Graph::tree_star(3, 3).expect("tree_star(3,3)"),
            22,
            21,
        ),
        (
            "complete(7)",
            Graph::complete(7).expect("complete(7)"),
            7,
            21,
        ),
    ];

    for (name, graph, order, edges) in cases {
        assert_eq!(graph.order(), order, "{name}: order");
        assert_eq!(graph.edge_count(), edges, "{name}: edge count");
    }
}

#[test]
fn tree_star_matches_its_node_count_formula() {
    for d in 1..5_usize {
        for ell in 1..6_u32 {
            let graph = Graph::tree_star(d, ell as usize).expect("tree_star with small parameters");
            let expected = 1 + d * (2_usize.pow(ell) - 1);
            assert_eq!(graph.order(), expected, "tree_star({d},{ell}): order");
            assert_eq!(
                graph.edge_count(),
                expected - 1,
                "tree_star({d},{ell}): edge count"
            );
        }
    }
}

#[test]
fn tree_star_degree_profile() {
    for (d, ell) in [(4_usize, 3_u32), (3, 2), (2, 4)] {
        let graph = Graph::tree_star(d, ell as usize).expect("tree_star");
        let label = format!("tree_star({d},{ell})");

        assert_eq!(graph.degrees()[0], d, "{label}: root degree");

        let mut leaves = 0_usize;
        let mut internal = 0_usize;
        for vertex in 1..graph.order() {
            let degree = graph.degrees()[vertex];
            if degree == 1 {
                leaves += 1;
            } else if degree == 3 {
                internal += 1;
            } else {
                panic!("{label}: vertex {vertex} has degree {degree}, expected 1 or 3");
            }
        }

        let expected_leaves = d * 2_usize.pow(ell - 1);
        let expected_internal = d * (2_usize.pow(ell - 1) - 1);
        assert_eq!(leaves, expected_leaves, "{label}: leaves");
        assert_eq!(internal, expected_internal, "{label}: internal vertices");
    }
}

#[test]
fn constructors_are_undirected_and_loop_free() {
    for (name, graph) in fixtures() {
        assert_eq!(graph.adjacency().nrows(), graph.order(), "{name}: rows");
        assert_eq!(graph.adjacency().ncols(), graph.order(), "{name}: columns");
        for u in 0..graph.order() {
            assert!(!joined(&graph, u, u), "{name}: loop at {u}");
            for v in 0..graph.order() {
                assert_eq!(
                    joined(&graph, u, v),
                    joined(&graph, v, u),
                    "{name}: ({u}, {v}) and its mirror"
                );
            }
        }
    }
}

#[test]
fn degrees_agree_with_adjacency_and_edge_count() {
    for (name, graph) in fixtures() {
        for vertex in 0..graph.order() {
            assert_eq!(
                graph.degrees()[vertex],
                count_flags(graph.adjacency().row(vertex)),
                "{name}: degrees[{vertex}]"
            );
        }
        let degree_sum: usize = graph.degrees().iter().sum();
        assert_eq!(degree_sum, 2 * graph.edge_count(), "{name}: degree sum");
    }
}

#[test]
fn path_star_degree_profile() {
    let graph = Graph::path_star(4, 4).expect("path_star(4,4)");
    assert_eq!(graph.degrees()[0], 4, "root degree");
    for arm in 0..4 {
        let leaf = 1 + arm * 4 + 3;
        assert_eq!(graph.degrees()[leaf], 1, "leaf {leaf}");
    }
    // Inside an arm every vertex has two neighbours.
    for arm in 0..4 {
        for step in 0..3 {
            assert_eq!(graph.degrees()[1 + arm * 4 + step], 2, "arm {arm}, step {step}");
        }
    }
}

#[test]
fn irregular_matches_the_d4_topology() {
    let graph = Graph::irregular().expect("irregular()");

    for u in 0..11 {
        for v in 11..15 {
            assert!(!joined(&graph, u, v), "({u}, {v}) joins the two components");
        }
    }

    let mut observed: Vec<(usize, usize)> = Vec::new();
    for u in 0..graph.order() {
        for v in (u + 1)..graph.order() {
            if joined(&graph, u, v) {
                observed.push((u, v));
            }
        }
    }

    let mut expected: Vec<(usize, usize)> = vec![
        (0, 1),
        (1, 2),
        (2, 3),
        (3, 4),
        (4, 5),
        (5, 6),
        (6, 7),
        (7, 8),
        (8, 9),
        (9, 10),
        (0, 10),
        (0, 2),
        (5, 7),
        (11, 12),
        (11, 13),
        (12, 13),
        (12, 14),
        (13, 14),
    ];
    expected.sort_unstable();

    assert_eq!(observed, expected, "irregular(): edge set");
}

#[test]
fn cycle_is_two_regular() {
    let graph = Graph::cycle(15).expect("cycle(15)");
    for vertex in 0..graph.order() {
        assert_eq!(graph.degrees()[vertex], 2, "cycle(15): degrees[{vertex}]");
    }
}

#[test]
fn degenerate_parameters_are_rejected() {
    let cases: [(&str, Result<Graph, Error>, GraphParameter, usize); 8] = [
        (
            "path_star(0,4)",
            Graph::path_star(0, 4),
            GraphParameter::Arms,
            1,
        ),
        (
            "path_star(4,0)",
            Graph::path_star(4, 0),
            GraphParameter::ArmLength,
            1,
        ),
        ("grid(0,4)", Graph::grid(0, 4), GraphParameter::Rows, 1),
        ("grid(4,0)", Graph::grid(4, 0), GraphParameter::Columns, 1),
        ("cycle(2)", Graph::cycle(2), GraphParameter::CycleOrder, 3),
        (
            "tree_star(0,2)",
            Graph::tree_star(0, 2),
            GraphParameter::RootDegree,
            1,
        ),
        (
            "tree_star(2,0)",
            Graph::tree_star(2, 0),
            GraphParameter::PathLength,
            1,
        ),
        ("complete(1)", Graph::complete(1), GraphParameter::Order, 2),
    ];

    for (name, result, parameter, minimum) in cases {
        match result {
            Err(Error::InvalidGraphParameter {
                parameter: observed,
                minimum: observed_min,
                ..
            }) => {
                assert_eq!(observed, parameter, "{name}: rejected parameter");
                assert_eq!(observed_min, minimum, "{name}: reported minimum");
            }
            Err(other) => panic!("{name}: expected InvalidGraphParameter, got {other:?}"),
            Ok(graph) => panic!(
                "{name}: expected rejection, built a {}-vertex graph",
                graph.order()
            ),
        }
    }
}

#[test]
fn from_edges_rejects_invalid_edges() {
    match Graph::from_edges(4, &[(1, 1)]) {
        Err(Error::SelfLoop { vertex }) => assert_eq!(vertex, 1, "reported vertex {vertex}"),
        other => panic!("expected SelfLoop, got {other:?}"),
    }
    match Graph::from_edges(4, &[(1, 4)]) {
        Err(Error::EdgeOutOfBounds { u, v, order }) => {
            assert_eq!((u, v, order), (1, 4, 4), "reported ({u}, {v}, {order})");
        }
        other => panic!("expected EdgeOutOfBounds, got {other:?}"),
    }
}

#[test]
fn the_first_bad_edge_is_reported() {
    match Graph::from_edges(3, &[(0, 1), (7, 0), (2, 2)]) {
        Err(Error::EdgeOutOfBounds { u, v, order }) => assert_eq!((u, v, order), (7, 0, 3)),
        other => panic!("expected EdgeOutOfBounds, got {other:?}"),
    }
    // A loop outside the vertex range is a loop first.
    match Graph::from_edges(3, &[(9, 9)]) {
        Err(Error::SelfLoop { vertex }) => assert_eq!(vertex, 9),
        other => panic!("expected SelfLoop, got {other:?}"),
    }
    match Graph::from_edges(0, &[(9, 9)]) {
        Err(Error::InvalidGraphParameter {
            parameter,
            minimum,
            value,
        }) => assert_eq!((parameter, minimum, value), (GraphParameter::Order, 1, 0)),
        other => panic!("expected InvalidGraphParameter, got {other:?}"),
    }
}

#[test]
fn repeated_edges_are_tolerated() {
    let graph = Graph::from_edges(4, &[(0, 1), (1, 0), (0, 1), (2, 1)]).expect("from_edges");
    assert_eq!(graph.edge_count(), 2);
    assert_eq!(graph.degrees(), &[1, 2, 1, 0]);
}

#[test]
fn oversized_families_are_refused() {
    for (name, result) in [
        ("path_star", Graph::path_star(usize::MAX, 2)),
        ("path_star + 1", Graph::path_star(usize::MAX, 1)),
        ("grid", Graph::grid(usize::MAX, 2)),
        ("tree_star", Graph::tree_star(2, 200)),
    ] {
        match result {
            Err(Error::GraphTooLarge) => {}
            other => panic!("{name}: expected GraphTooLarge, got {:?}", other.map(|g| g.order())),
        }
    }
}

#[test]
fn minimums_are_inclusive() {
    assert!(require_at_least(GraphParameter::Order, 3, 3).is_ok());
    match require_at_least(GraphParameter::Rows, 3, 2) {
        Err(Error::InvalidGraphParameter {
            parameter,
            minimum,
            value,
        }) => assert_eq!((parameter, minimum, value), (GraphParameter::Rows, 3, 2)),
        other => panic!("expected InvalidGraphParameter, got {other:?}"),
    }
    assert_eq!(Graph::cycle(3).expect("cycle(3)").edge_count(), 3);
    assert_eq!(Graph::grid(1, 1).expect("grid(1,1)").edge_count(), 0);
    assert_eq!(Graph::complete(2).expect("complete(2)").edge_count(), 1);
}

#[test]
fn the_edge_totals_follow_their_formulas() {
    for rows in 1..6_usize {
        for cols in 1..6_usize {
            let graph = Graph::grid(rows, cols).expect("grid");
            assert_eq!(
                graph.edge_count(),
                rows * (cols - 1) + cols * (rows - 1),
                "grid({rows},{cols})"
            );
            let star = Graph::path_star(rows, cols).expect("path_star");
            assert_eq!(star.edge_count(), rows * cols, "path_star({rows},{cols})");
            assert_eq!(star.degrees()[0], rows, "path_star({rows},{cols}): root");
        }
    }
    for n in 3..9_usize {
        assert_eq!(Graph::cycle(n).expect("cycle").edge_count(), n);
        let complete = Graph::complete(n).expect("complete");
        assert_eq!(complete.edge_count(), n * (n - 1) / 2);
        assert!(complete.degrees().iter().all(|degree| *degree == n - 1));
    }
}

#[test]
fn the_tree_star_leaves_sit_at_full_depth() {
    let (d, ell) = (3_usize, 4_usize);
    let graph = Graph::tree_star(d, ell).expect("tree_star");
    for vertex in 1..graph.order() {
        let mut depth = 0;
        let mut at = vertex;
        while at != 0 {
            at = (0..at).find(|&u| joined(&graph, u, at)).expect("a parent");
            depth += 1;
        }
        assert_eq!(graph.degrees()[vertex] == 1, depth == ell, "vertex {vertex}");
    }
}
