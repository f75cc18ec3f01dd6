//! Walk matrices and spectra, with nalgebra as the solver.

use std::f64::consts::PI;
use std::ops::Range;

use nalgebra::linalg::SymmetricEigen;
use nalgebra::{DMatrix, DVector};
use rediscovery::double::Double;
use rediscovery::error::Error;
use rediscovery::graph::Graph;
use rediscovery::matrix::Matrix;
use rediscovery::node2vec::fiedler_like_range;
use rediscovery::ranking::descending_order;
use rediscovery::spectral::{
    check_symmetric, laplacian, transition, Decomposition, Ratio, Spectrum, SIGN_PIVOT_TOLERANCE,
};

/// Tolerance for eigenvalues checked against closed forms.
const EIGENVALUE_TOLERANCE: f64 = 1e-9;
/// Tolerance for residuals of exact matrix identities.
const RESIDUAL_TOLERANCE: f64 = 1e-10;

type Builder = fn() -> Result<Graph, Error>;

fn pattern(value: f64) -> Double {
    Double::from_bits(value.to_bits())
}

fn number(value: Double) -> f64 {
    f64::from_bits(value.to_bits())
}

fn quotient(ratio: Ratio) -> f64 {
    ratio.numerator as f64 / ratio.denominator as f64
}

fn matrix_of<T>(rows: usize, columns: usize, entry: impl Fn(usize, usize) -> T) -> Matrix<T> {
    let lines = (0..rows)
        .map(|i| (0..columns).map(|j| entry(i, j)).collect())
        .collect();
    Matrix::from_rows(columns, lines).expect("rows of equal length")
}

fn matrix_patterns(matrix: &DMatrix<f64>) -> Matrix<Double> {
    matrix_of(matrix.nrows(), matrix.ncols(), |i, j| pattern(matrix[(i, j)]))
}

fn spectrum_of(symmetric: DMatrix<f64>) -> Result<Spectrum, Error> {
    let given = matrix_patterns(&symmetric);
    check_symmetric(&given)?;
    let eigen = SymmetricEigen::try_new(symmetric, f64::EPSILON, 0).expect("a decomposition");
    let values: Vec<f64> = eigen.eigenvalues.iter().copied().collect();
    let decomposition = Decomposition {
        eigenvalues: values.iter().copied().map(pattern).collect(),
        eigenvectors: matrix_patterns(&eigen.eigenvectors),
        distances: matrix_of(values.len(), values.len(), |i, j| {
            pattern((values[i] - values[j]).abs())
        }),
    };
    Spectrum::new(&given, &decomposition)
}

fn dense_laplacian(graph: &Graph) -> Result<DMatrix<f64>, Error> {
    let terms = laplacian(graph)?;
    Ok(DMatrix::from_fn(terms.nrows(), terms.ncols(), |i, j| {
        let entry = terms.at(i, j);
        let identity = if entry.diagonal { 1.0 } else { 0.0 };
        (identity - quotient(entry.along)) + (identity - quotient(entry.against))
    }))
}

fn of_negative_laplacian(graph: &Graph) -> Result<Spectrum, Error> {
    spectrum_of(-dense_laplacian(graph)?)
}

fn values_of(spectrum: &Spectrum) -> Vec<f64> {
    spectrum.eigenvalues().iter().copied().map(number).collect()
}

fn vectors_of(spectrum: &Spectrum) -> DMatrix<f64> {
    let vectors = spectrum.eigenvectors();
    DMatrix::from_fn(vectors.nrows(), vectors.ncols(), |i, j| {
        number(*vectors.at(i, j))
    })
}

fn fixtures() -> Vec<(&'static str, Graph)> {
    vec![
        (
            "path_star(4,4)",
            Graph::path_star(4, 4).expect("path_star(4,4)"),
        ),
        ("grid(4,4)", Graph::grid(4, 4).expect("grid(4,4)")),
        ("cycle(15)", Graph::cycle(15).expect("cycle(15)")),
        ("irregular()", Graph::irregular().expect("irregular()")),
        (
            "tree_star(3,3)",
            Graph::tree_star(3, 3).expect("tree_star(3,3)"),
        ),
        ("complete(7)", Graph::complete(7).expect("complete(7)")),
    ]
}

fn builders() -> Vec<(&'static str, Builder)> {
    vec![
        ("path_star(4,4)", || Graph::path_star(4, 4)),
        ("grid(4,4)", || Graph::grid(4, 4)),
        ("cycle(15)", || Graph::cycle(15)),
        ("irregular()", Graph::irregular),
        ("tree_star(4,3)", || Graph::tree_star(4, 3)),
        ("complete(8)", || Graph::complete(8)),
    ]
}

fn orthonormality_residual(spectrum: &Spectrum) -> f64 {
    let e = vectors_of(spectrum);
    let n = spectrum.order();
    (e.transpose() * &e - DMatrix::<f64>::identity(n, n)).norm()
}

fn reconstruction_residual(spectrum: &Spectrum, target: &DMatrix<f64>) -> f64 {
    let e = vectors_of(spectrum);
    let lambda = DMatrix::from_diagonal(&DVector::from_vec(values_of(spectrum)));
    (&e * lambda * e.transpose() - target).norm()
}

fn cycle15_closed_form() -> Vec<f64> {
    let mut expected: Vec<f64> = (0..15)
        .map(|k| 2.0 * (2.0 * PI * f64::from(k) / 15.0).cos() - 2.0)
        .collect();
    expected.sort_by(|a, b| b.total_cmp(a));
    expected
}

#[test]
fn cycle15_eigenvalues_match_the_closed_form() {
    let graph = Graph::cycle(15).expect("cycle(15)");
    let spectrum = of_negative_laplacian(&graph).expect("spectrum of cycle(15)");
    let values = values_of(&spectrum);
    for (k, &want) in cycle15_closed_form().iter().enumerate() {
        let got = values[k];
        assert!(
            (got - want).abs() < EIGENVALUE_TOLERANCE,
            "cycle(15): eigenvalue {k} is {got:.15}, closed form gives {want:.15}"
        );
    }
}

#[test]
fn cycle15_top_eigenvector_is_constant() {
    let graph = Graph::cycle(15).expect("cycle(15)");
    let spectrum = of_negative_laplacian(&graph).expect("spectrum of cycle(15)");
    let vectors = vectors_of(&spectrum);
    let uniform = 1.0 / 15.0_f64.sqrt();
    for (vertex, &component) in vectors.column(0).iter().enumerate() {
        assert!(
            (component - uniform).abs() < EIGENVALUE_TOLERANCE,
            "cycle(15): component {vertex} is {component:.15}, expected {uniform:.15}"
        );
    }
}

#[test]
fn cycle15_fiedler_pair_spans_the_fourier_modes() {
    let graph = Graph::cycle(15).expect("cycle(15)");
    let spectrum = of_negative_laplacian(&graph).expect("spectrum of cycle(15)");
    let values = values_of(&spectrum);

    let gap = (values[1] - values[2]).abs();
    assert!(gap < EIGENVALUE_TOLERANCE, "eigenvalues 1 and 2 differ by {gap:.3e}");

    let mut fourier = DMatrix::<f64>::zeros(15, 2);
    for i in 0..15 {
        let theta = 2.0 * PI * (i as f64) / 15.0;
        fourier[(i, 0)] = theta.cos();
        fourier[(i, 1)] = theta.sin();
    }
    for mut column in fourier.column_iter_mut() {
        let norm = column.norm();
        column /= norm;
    }

    let pair = vectors_of(&spectrum).columns(1, 2).into_owned();
    let residual = (&fourier - &pair * (pair.transpose() * &fourier)).norm();
    assert!(residual < EIGENVALUE_TOLERANCE, "projection residual {residual:.3e}");
}

#[test]
fn cycle15_degenerate_groups_match_the_closed_form() {
    let graph = Graph::cycle(15).expect("cycle(15)");
    let spectrum = of_negative_laplacian(&graph).expect("spectrum of cycle(15)");
    let groups = spectrum.degenerate_groups(pattern(EIGENVALUE_TOLERANCE));
    let expected: Vec<Range<usize>> =
        vec![0..1, 1..3, 3..5, 5..7, 7..9, 9..11, 11..13, 13..15];
    assert_eq!(groups, expected, "cycle(15): degenerate groups");
}

#[test]
fn complete_graph_eigenvalues_match_the_closed_form() {
    for n in [2_usize, 3, 5, 8, 15] {
        let graph = Graph::complete(n).expect("complete(n)");
        let values = values_of(&of_negative_laplacian(&graph).expect("spectrum of complete(n)"));
        assert!(values[0].abs() < EIGENVALUE_TOLERANCE, "complete({n}): top {}", values[0]);
        let bulk = -2.0 * (n as f64) / ((n - 1) as f64);
        for k in 1..n {
            assert!(
                (values[k] - bulk).abs() < EIGENVALUE_TOLERANCE,
                "complete({n}): eigenvalue {k} is {:.15}, closed form gives {bulk:.15}",
                values[k]
            );
        }
    }
}

#[test]
fn complete_graph_top_eigenvector_is_constant() {
    let n = 8_usize;
    let graph = Graph::complete(n).expect("complete(8)");
    let vectors = vectors_of(&of_negative_laplacian(&graph).expect("spectrum of complete(8)"));
    let uniform = 1.0 / (n as f64).sqrt();
    for (vertex, &component) in vectors.column(0).iter().enumerate() {
        assert!(
            (component - uniform).abs() < EIGENVALUE_TOLERANCE,
            "complete({n}): component {vertex} is {component:.15}, expected {uniform:.15}"
        );
    }
}

#[test]
fn transition_rows_sum_to_one_on_every_constructor() {
    for (name, graph) in fixtures() {
        let walk = transition(&graph).expect("transition");
        for vertex in 0..walk.nrows() {
            let sum: f64 = walk.row(vertex).iter().map(|ratio| quotient(*ratio)).sum();
            assert!((sum - 1.0).abs() < RESIDUAL_TOLERANCE, "{name}: row {vertex} sums to {sum}");
            // And exactly: the numerators add up to the shared denominator.
            let numerators: usize = walk.row(vertex).iter().map(|ratio| ratio.numerator).sum();
            assert_eq!(numerators, graph.degrees()[vertex], "{name}: row {vertex}");
            assert!(walk
                .row(vertex)
                .iter()
                .all(|ratio| ratio.denominator == graph.degrees()[vertex]));
        }
    }
}

#[test]
fn laplacian_is_symmetric_on_every_constructor() {
    for (name, graph) in fixtures() {
        let l = dense_laplacian(&graph).expect("laplacian");
        let asymmetry = (&l - l.transpose()).norm();
        assert!(asymmetry < RESIDUAL_TOLERANCE, "{name}: asymmetry {asymmetry:.3e}");
        let terms = laplacian(&graph).expect("laplacian");
        for u in 0..graph.order() {
            for v in 0..graph.order() {
                let (entry, mirror) = (terms.at(u, v), terms.at(v, u));
                assert_eq!(entry.diagonal, u == v);
                assert_eq!((entry.along, entry.against), (mirror.against, mirror.along));
            }
        }
    }
}

#[test]
fn spectrum_reconstructs_negative_laplacian_on_every_constructor() {
    for (name, graph) in fixtures() {
        let target = -dense_laplacian(&graph).expect("laplacian");
        let spectrum = spectrum_of(target.clone()).expect("spectrum");
        let residual = reconstruction_residual(&spectrum, &target);
        assert!(residual < RESIDUAL_TOLERANCE, "{name}: residual {residual:.3e}");
    }
}

#[test]
fn spectrum_eigenvectors_are_orthonormal_on_every_constructor() {
    for (name, graph) in fixtures() {
        let spectrum = of_negative_laplacian(&graph).expect("spectrum");
        let deviation = orthonormality_residual(&spectrum);
        assert!(deviation < RESIDUAL_TOLERANCE, "{name}: deviation {deviation:.3e}");
    }
}

#[test]
fn spectrum_eigenvalues_descend_on_every_constructor() {
    for (name, graph) in fixtures() {
        let values = values_of(&of_negative_laplacian(&graph).expect("spectrum"));
        for (k, window) in values.windows(2).enumerate() {
            assert!(window[0] >= window[1], "{name}: eigenvalue {k} is below its successor");
        }
    }
}

#[test]
fn spectrum_eigenvector_signs_are_deterministic_on_every_constructor() {
    let tolerance = f64::from_bits(SIGN_PIVOT_TOLERANCE);
    assert_eq!(tolerance, 1e-9);
    for (name, graph) in fixtures() {
        let vectors = vectors_of(&of_negative_laplacian(&graph).expect("spectrum"));
        for (k, column) in vectors.column_iter().enumerate() {
            let Some(pivot) = column
                .iter()
                .copied()
                .find(|component| component.abs() > tolerance)
            else {
                panic!("{name}: eigenvector {k} has no component above {tolerance:e}")
            };
            assert!(pivot > 0.0, "{name}: eigenvector {k} has leading component {pivot:.6e}");
        }
    }
}

#[test]
fn laplacian_rejects_an_isolated_vertex() {
    let graph = Graph::grid(1, 1).expect("grid(1,1)");
    match laplacian(&graph) {
        Err(Error::IsolatedVertex { vertex }) => assert_eq!(vertex, 0, "reported vertex"),
        other => panic!("expected IsolatedVertex, got {other:?}"),
    }
    let graph = Graph::from_edges(4, &[(0, 1)]).expect("from_edges");
    match transition(&graph) {
        Err(Error::IsolatedVertex { vertex }) => assert_eq!(vertex, 2, "the first such vertex"),
        other => panic!("expected IsolatedVertex, got {other:?}"),
    }
}

#[test]
fn spectrum_rejects_a_non_square_matrix() {
    match spectrum_of(DMatrix::<f64>::zeros(2, 3)) {
        Err(Error::NotSquare { rows, columns }) => {
            assert_eq!((rows, columns), (2, 3), "reported {rows}x{columns}");
        }
        other => panic!("expected NotSquare, got {other:?}"),
    }
}

#[test]
fn spectrum_rejects_an_empty_matrix() {
    match spectrum_of(DMatrix::<f64>::zeros(0, 0)) {
        Err(Error::EmptyMatrix) => {}
        other => panic!("expected EmptyMatrix, got {other:?}"),
    }
}

#[test]
fn spectrum_rejects_non_finite_entries() {
    let mut with_nan = DMatrix::<f64>::identity(3, 3);
    with_nan[(0, 2)] = f64::NAN;
    with_nan[(2, 0)] = f64::NAN;
    match spectrum_of(with_nan) {
        Err(Error::NonFinite { row: 0, column: 2 }) => {}
        other => panic!("expected NonFinite at (0, 2), got {other:?}"),
    }

    let mut with_inf = DMatrix::<f64>::identity(3, 3);
    with_inf[(1, 1)] = f64::INFINITY;
    match spectrum_of(with_inf) {
        Err(Error::NonFinite { row: 1, column: 1 }) => {}
        other => panic!("expected NonFinite at (1, 1), got {other:?}"),
    }

    // A mirror that is not finite is reported at its own place.
    let mut with_mirror = DMatrix::<f64>::identity(3, 3);
    with_mirror[(2, 1)] = f64::NEG_INFINITY;
    match spectrum_of(with_mirror) {
        Err(Error::NonFinite { row: 2, column: 1 }) => {}
        other => panic!("expected NonFinite at (2, 1), got {other:?}"),
    }
}

#[test]
fn spectrum_rejects_an_asymmetric_matrix() {
    let mut asymmetric = DMatrix::<f64>::identity(3, 3);
    asymmetric[(0, 1)] = 99.0;
    match spectrum_of(asymmetric) {
        Err(Error::NotSymmetric { row: 0, column: 1 }) => {}
        other => panic!("expected NotSymmetric at (0, 1), got {other:?}"),
    }
}

#[test]
fn graph_to_spectrum_flow_for_every_constructor() {
    for (name, build) in builders() {
        let graph = build().expect("constructor");
        let n = graph.order();
        let l = dense_laplacian(&graph).expect("laplacian");
        assert_eq!(l.shape(), (n, n), "{name}: laplacian shape");

        let walk = DMatrix::from_fn(n, n, |u, v| {
            let entry = if *graph.adjacency().at(u, v) { 1.0 } else { 0.0 };
            entry / graph.degrees()[u] as f64
        });
        let deviation = DMatrix::<f64>::identity(n, n) - walk;
        let reference = &deviation + deviation.transpose();
        let drift = (&l - &reference).norm();
        assert!(drift < 1e-12, "{name}: drift {drift:.3e}");

        let spectrum = of_negative_laplacian(&graph).expect("spectrum");
        assert_eq!(spectrum.len(), n, "{name}: eigenpairs");
        assert_eq!(spectrum.eigenvectors().nrows(), n, "{name}: rows");
        assert_eq!(spectrum.eigenvectors().ncols(), n, "{name}: columns");
        assert!(orthonormality_residual(&spectrum) < 1e-10, "{name}: orthonormality");
        assert!(reconstruction_residual(&spectrum, &-&l) < 1e-10, "{name}: reconstruction");
    }
}

#[test]
fn spectrum_is_deterministic_across_identical_calls() {
    for (name, build) in builders() {
        let first = of_negative_laplacian(&build().expect("constructor")).expect("first");
        let second = of_negative_laplacian(&build().expect("constructor")).expect("second");
        assert_eq!(first.eigenvalues(), second.eigenvalues(), "{name}: eigenvalues");
        assert_eq!(vectors_of(&first), vectors_of(&second), "{name}: eigenvectors");
    }
}

#[test]
fn cycle15_closed_form_through_the_public_api() {
    let graph = Graph::cycle(15).expect("cycle(15)");
    let spectrum = of_negative_laplacian(&graph).expect("spectrum");
    for (got, want) in values_of(&spectrum).iter().zip(cycle15_closed_form()) {
        assert!((got - want).abs() < 1e-9, "{got:.15} against {want:.15}");
    }
    let uniform = 1.0 / 15.0_f64.sqrt();
    for &component in vectors_of(&spectrum).column(0).iter() {
        assert!((component - uniform).abs() < 1e-9, "component {component:.15}");
    }
}

#[test]
fn fiedler_like_range_starts_below_the_top_group() {
    let cycle = Graph::cycle(15).expect("cycle(15)");
    let spectrum = of_negative_laplacian(&cycle).expect("spectrum");
    assert_eq!(fiedler_like_range(&spectrum, pattern(0.0)), 1..3, "cycle(15)");

    let complete = Graph::complete(7).expect("complete(7)");
    let spectrum = of_negative_laplacian(&complete).expect("spectrum");
    assert_eq!(fiedler_like_range(&spectrum, pattern(0.0)), 1..7, "complete(7)");
}

#[test]
fn fiedler_like_range_widens_with_the_spread() {
    let cycle = Graph::cycle(15).expect("cycle(15)");
    let spectrum = of_negative_laplacian(&cycle).expect("spectrum");
    let values = values_of(&spectrum);

    let gap = (values[1] - values[3]).abs();
    assert_eq!(number(spectrum.distance(1, 3)), gap);
    let narrow = fiedler_like_range(&spectrum, pattern(gap * 0.5));
    assert_eq!(narrow, 1..3, "below the {gap:.6} gap");
    let wide = fiedler_like_range(&spectrum, pattern(gap * 1.5));
    assert_eq!(wide, 1..5, "above the {gap:.6} gap");
}

#[test]
fn a_single_group_is_its_own_fiedler_like_range() {
    let spectrum = spectrum_of(DMatrix::<f64>::identity(4, 4)).expect("spectrum");
    assert_eq!(spectrum.degenerate_groups(pattern(1e-9)), vec![0..4]);
    assert_eq!(fiedler_like_range(&spectrum, pattern(0.0)), 0..4);
}

#[test]
fn equal_eigenvalues_keep_the_solvers_order_and_signs_are_flipped() {
    let symmetric = matrix_patterns(&DMatrix::<f64>::identity(2, 2));
    let decomposition = Decomposition {
        eigenvalues: vec![pattern(1.0), pattern(1.0)],
        eigenvectors: matrix_of(2, 2, |i, j| {
            pattern([[1e-10, -1.0], [-1.0, -1e-10]][i][j])
        }),
        distances: matrix_of(2, 2, |_, _| pattern(0.0)),
    };
    let spectrum = Spectrum::new(&symmetric, &decomposition).expect("spectrum");
    // Column 0: its first component is below the tolerance, its second is the
    // negative pivot. Column 1: its first component is.
    assert_eq!(
        vectors_of(&spectrum),
        DMatrix::from_row_slice(2, 2, &[-1e-10, 1.0, 1.0, 1e-10])
    );
}

#[test]
fn rankings_break_ties_by_index() {
    let values: Vec<Double> = [0.5, 2.0, 0.5, -1.0, 2.0]
        .iter()
        .copied()
        .map(pattern)
        .collect();
    assert_eq!(descending_order(&values), vec![1, 4, 0, 2, 3]);
    let zeros: Vec<Double> = [-0.0, 0.0, f64::NAN].iter().copied().map(pattern).collect();
    assert_eq!(descending_order(&zeros), vec![2, 1, 0]);
}

#[test]
fn zeros_of_either_sign_share_a_group_and_neighbouring_values_need_not() {
    let symmetric = matrix_patterns(&DMatrix::<f64>::zeros(3, 3));
    let values = [0.0, 1.0, -0.0];
    let decomposition = Decomposition {
        eigenvalues: values.iter().copied().map(pattern).collect(),
        eigenvectors: matrix_patterns(&DMatrix::<f64>::identity(3, 3)),
        distances: matrix_of(3, 3, |i, j| pattern(f64::abs(values[i] - values[j]))),
    };
    let spectrum = Spectrum::new(&symmetric, &decomposition).expect("spectrum");
    assert_eq!(spectrum.degenerate_groups(pattern(0.0)), vec![0..1, 1..3]);
    assert_eq!(spectrum.degenerate_groups(pattern(1.0)), vec![0..3]);
    assert_eq!(fiedler_like_range(&spectrum, pattern(0.0)), 1..3);
}
