//! The library's laws on concrete values.

use rediscovery::double::Double;
use rediscovery::graph::Graph;
use rediscovery::journal::Journal;
use rediscovery::matrix::Matrix;
use rediscovery::node2vec::{second_factor_seed, StepRecord, TiedCells};
use rediscovery::progress::{Outcome, Phase};
use rediscovery::shells::distance_shells;
use rediscovery::spectral::{laplacian, transition, Decomposition, Spectrum};
use rediscovery::text::push_newline;

fn pattern(value: f64) -> Double {
    Double::from_bits(value.to_bits())
}

fn matrix_of<T>(rows: usize, columns: usize, entry: impl Fn(usize, usize) -> T) -> Matrix<T> {
    let lines = (0..rows)
        .map(|i| (0..columns).map(|j| entry(i, j)).collect())
        .collect();
    Matrix::from_rows(columns, lines).expect("rows of equal length")
}

fn joined(graph: &Graph, u: usize, v: usize) -> bool {
    *graph.adjacency().at(u, v)
}

#[test]
fn edge_lists_with_the_same_pairs_give_the_same_graph() {
    let first = Graph::from_edges(5, &[(0, 1), (1, 2), (3, 4)]).expect("from_edges");
    let second =
        Graph::from_edges(5, &[(4, 3), (2, 1), (1, 2), (1, 0), (3, 4)]).expect("from_edges");
    let other = Graph::from_edges(5, &[(0, 1), (1, 2), (2, 4)]).expect("from_edges");
    assert_eq!(first, second);
    assert_ne!(first, other);
}

#[test]
fn no_graph_has_more_edges_than_pairs() {
    for graph in [
        Graph::grid(3, 4).expect("grid"),
        Graph::irregular().expect("irregular"),
        Graph::complete(6).expect("complete"),
    ] {
        let n = graph.order();
        assert!(2 * graph.edge_count() <= n * (n - 1));
    }
}

#[test]
fn the_arms_of_a_path_star_are_disjoint() {
    let (arms, length) = (3, 4);
    let graph = Graph::path_star(arms, length).expect("path_star");
    for u in 1..graph.order() {
        for v in 1..graph.order() {
            if (u - 1) / length != (v - 1) / length {
                assert!(!joined(&graph, u, v), "({u}, {v}) joins two arms");
            }
        }
    }
}

#[test]
fn tree_star_depths_do_not_fall() {
    let graph = Graph::tree_star(3, 4).expect("tree_star");
    let mut depths = vec![0_usize];
    for vertex in 1..graph.order() {
        let parent = (0..vertex)
            .find(|&u| joined(&graph, u, vertex))
            .expect("a parent");
        depths.push(depths[parent] + 1);
    }
    assert!(depths.windows(2).all(|pair| pair[0] <= pair[1]));
    assert_eq!(depths.last(), Some(&4));
}

/// Distances by relaxation, as a reference for the shells.
fn distances(graph: &Graph) -> Vec<Vec<usize>> {
    let n = graph.order();
    let mut table = vec![vec![usize::MAX; n]; n];
    for (u, row) in table.iter_mut().enumerate() {
        row[u] = 0;
    }
    for _ in 0..n {
        for u in 0..n {
            for v in 0..n {
                for w in 0..n {
                    if table[u][w] != usize::MAX && joined(graph, w, v) {
                        table[u][v] = table[u][v].min(table[u][w] + 1);
                    }
                }
            }
        }
    }
    table
}

#[test]
fn the_shells_hold_each_pair_at_its_distance_once() {
    for graph in [
        Graph::path_star(3, 3).expect("path_star"),
        Graph::grid(3, 4).expect("grid"),
        Graph::irregular().expect("irregular"),
    ] {
        let table = distances(&graph);
        let shells = distance_shells(graph.adjacency(), graph.order()).expect("shells");
        for u in 0..graph.order() {
            for v in 0..graph.order() {
                assert_eq!(table[u][v], table[v][u], "distance is symmetric");
            }
        }
        for (k, shell) in shells.iter().enumerate() {
            let mut expected = Vec::new();
            for u in 0..graph.order() {
                for v in (u + 1)..graph.order() {
                    if table[u][v] == k + 1 {
                        expected.push((u, v));
                    }
                }
            }
            assert_eq!(*shell, expected, "shell {}", k + 1);
            if k >= 1 {
                assert!(shell.iter().all(|&(u, v)| !joined(&graph, u, v)));
            }
        }
    }
}

#[test]
fn the_walk_is_symmetric_where_degrees_are_equal() {
    let cycle = Graph::cycle(5).expect("cycle");
    let walk = transition(&cycle).expect("transition");
    for u in 0..5 {
        for v in 0..5 {
            assert_eq!(walk.at(u, v), walk.at(v, u));
        }
    }
    let star = Graph::path_star(3, 1).expect("path_star");
    let walk = transition(&star).expect("transition");
    assert_ne!(walk.at(0, 1), walk.at(1, 0));
    let terms = laplacian(&star).expect("laplacian");
    let (entry, mirror) = (terms.at(0, 1), terms.at(1, 0));
    assert_eq!((entry.along, entry.against), (mirror.against, mirror.along));
}

fn arranged(sign: f64) -> Spectrum {
    let symmetric = matrix_of(2, 2, |i, j| pattern(if i == j { 1.0 } else { 0.0 }));
    let decomposition = Decomposition {
        eigenvalues: vec![pattern(-1.0), pattern(2.0)],
        eigenvectors: matrix_of(2, 2, |i, j| pattern(sign * [[0.6, 0.8], [-0.8, 0.6]][i][j])),
        distances: matrix_of(2, 2, |i, j| pattern(if i == j { 0.0 } else { 3.0 })),
    };
    Spectrum::new(&symmetric, &decomposition).expect("spectrum")
}

#[test]
fn the_sign_convention_does_not_depend_on_the_solvers_signs() {
    let (plus, minus) = (arranged(1.0), arranged(-1.0));
    assert_eq!(plus.eigenvalues(), &[pattern(2.0), pattern(-1.0)]);
    assert_eq!(plus.eigenvectors(), minus.eigenvectors());
    assert_eq!(plus.eigenvectors().row(0), &[pattern(0.8), pattern(0.6)]);
    assert_eq!(plus.eigenvectors().row(1), &[pattern(0.6), pattern(-0.8)]);
}

#[test]
fn second_seeds_are_distinct_and_fresh() {
    for seed in [0, 1, 2, 20_260_829, u64::MAX] {
        assert_ne!(second_factor_seed(seed), seed);
        assert_ne!(second_factor_seed(seed), second_factor_seed(seed.wrapping_add(1)));
    }
}

#[test]
fn a_document_reads_back() {
    let mut journal: Journal<usize, StepRecord> = Journal::new(1, pattern(1e-8), 1, 40);
    let mut text = journal.take_text();
    for step in [0, 1] {
        let cells = TiedCells {
            objective: "-3".to_string(),
            relative_update: "0.5".to_string(),
            observation8_residual: "1e-3".to_string(),
            projections: vec!["7".to_string()],
            coefficient_norms: vec!["8".to_string()],
        };
        let record = StepRecord::new(
            step,
            pattern(-3.0),
            pattern(0.5),
            pattern(1e-3),
            vec![pattern(7.0)],
            vec![pattern(8.0)],
        );
        journal.record(record, &cells);
        text.push_str(&journal.take_text());
        if journal.phase() == Phase::Poll {
            journal.polled(false, 41);
        }
    }
    assert_eq!(journal.phase(), Phase::Ended(Outcome::StepLimit));
    assert_eq!(*journal.state(), 41);
    assert_eq!(journal.steps(), 1);
    assert_eq!(journal.into_progress().into_parts().0, 41);
    let rows: Vec<Vec<&str>> = text.lines().map(|line| line.split(',').collect()).collect();
    assert_eq!(
        rows,
        vec![
            vec![
                "step",
                "objective",
                "relative_update",
                "observation8_residual",
                "projection_0",
                "coefficient_norm_0"
            ],
            vec!["0", "-3", "0.5", "1e-3", "7", "8"],
            vec!["1", "-3", "0.5", "1e-3", "7", "8"],
        ]
    );
    let mut blank = String::new();
    push_newline(&mut blank);
    assert_eq!(blank, "\n");
}
