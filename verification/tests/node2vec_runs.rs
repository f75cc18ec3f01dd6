//! The `Node2Vec` system: parameters, shapes, draws, step loop and lines. The
//! floating-point side of a run is spelled out here.

use nalgebra::linalg::SymmetricEigen;
use nalgebra::DMatrix;
use rand::distr::{Distribution, OpenClosed01};
use rand::{RngCore, SeedableRng};
use rand_chacha::ChaCha20Rng;
use rediscovery::double::Double;
use rediscovery::error::Error;
use rediscovery::graph::Graph;
use rediscovery::journal::Journal;
use rediscovery::matrix::Matrix;
use rediscovery::node2vec::{
    fiedler_like_range, fiedler_spread, prepare_tied, prepare_untied, second_factor_seed,
    write_tied_header, write_tied_row, write_untied_header, write_untied_row, Node2Vec, Outcome,
    Params, StepRecord, TiedCells, TiedRun, UntiedCells, UntiedRun, UntiedStepRecord,
    DEGENERACY_TOLERANCE, FIEDLER_SPREAD_FRACTION,
};
use rediscovery::numerics::{gaussian_matrix, Draw};
use rediscovery::progress::{Phase, StepLoop};
use rediscovery::spectral::{check_symmetric, Decomposition, LaplacianEntry, Ratio, Spectrum};

/// Steps that the determinism tests compare.
const TRAJECTORY_STEPS: usize = 25;

fn pattern(value: f64) -> Double {
    Double::from_bits(value.to_bits())
}

fn number(value: Double) -> f64 {
    f64::from_bits(value.to_bits())
}

fn patterns(values: &[f64]) -> Vec<Double> {
    values.iter().copied().map(pattern).collect()
}

fn quotient(ratio: Ratio) -> f64 {
    ratio.numerator as f64 / ratio.denominator as f64
}

fn matrix_of<T>(rows: usize, columns: usize, entry: impl Fn(usize, usize) -> T) -> Matrix<T> {
    let lines = (0..rows)
        .map(|i| (0..columns).map(|j| entry(i, j)).collect())
        .collect();
    Matrix::from_rows(columns, lines).expect("rows of equal length")
}

fn matrix_patterns(matrix: &DMatrix<f64>) -> Matrix<Double> {
    matrix_of(matrix.nrows(), matrix.ncols(), |i, j| pattern(matrix[(i, j)]))
}

fn dense<T>(matrix: &Matrix<T>, value: impl Fn(&T) -> f64) -> DMatrix<f64> {
    DMatrix::from_fn(matrix.nrows(), matrix.ncols(), |i, j| value(matrix.at(i, j)))
}

struct Replay(u64);

impl RngCore for Replay {
    fn next_u32(&mut self) -> u32 {
        self.0 as u32
    }

    fn next_u64(&mut self) -> u64 {
        self.0
    }

    fn fill_bytes(&mut self, bytes: &mut [u8]) {
        for (slot, byte) in bytes.iter_mut().zip(self.0.to_le_bytes()) {
            *slot = byte;
        }
    }
}

fn box_muller(radial: f64, angular: f64) -> f64 {
    (-2.0 * radial.ln()).sqrt() * (std::f64::consts::TAU * angular).cos()
}

fn gaussian(draws: &Matrix<Draw>, sigma: f64) -> DMatrix<f64> {
    dense(draws, |draw| {
        let radial: f64 = OpenClosed01.sample(&mut Replay(draw.radial));
        let angular: f64 = OpenClosed01.sample(&mut Replay(draw.angular));
        sigma * box_muller(radial, angular)
    })
}

fn row_softmax(logits: &DMatrix<f64>) -> DMatrix<f64> {
    let mut probabilities = logits.clone();
    for mut row in probabilities.row_iter_mut() {
        let peak = row.iter().copied().fold(f64::NEG_INFINITY, f64::max);
        row.apply(|entry| *entry = (*entry - peak).exp());
        let total = row.sum();
        row /= total;
    }
    probabilities
}

fn log_likelihood(weights: &DMatrix<f64>, logits: &DMatrix<f64>) -> f64 {
    let mut total = 0.0;
    for i in 0..logits.nrows() {
        let row = logits.row(i);
        let peak = row.iter().copied().fold(f64::NEG_INFINITY, f64::max);
        let shifted: f64 = row.iter().map(|entry| (entry - peak).exp()).sum();
        for j in 0..logits.ncols() {
            if weights[(i, j)] > 0.0 {
                total += weights[(i, j)] * (logits[(i, j)] - peak - shifted.ln());
            }
        }
    }
    total
}

fn symmetrize(matrix: &DMatrix<f64>) -> DMatrix<f64> {
    matrix + matrix.transpose()
}

fn spectrum_of(symmetric: DMatrix<f64>) -> Spectrum {
    let given = matrix_patterns(&symmetric);
    check_symmetric(&given).expect("a finite symmetric matrix");
    let eigen = SymmetricEigen::try_new(symmetric, f64::EPSILON, 0).expect("a decomposition");
    let values: Vec<f64> = eigen.eigenvalues.iter().copied().collect();
    let decomposition = Decomposition {
        eigenvalues: patterns(&values),
        eigenvectors: matrix_patterns(&eigen.eigenvectors),
        distances: matrix_of(values.len(), values.len(), |i, j| {
            pattern((values[i] - values[j]).abs())
        }),
    };
    Spectrum::new(&given, &decomposition).expect("spectrum")
}

fn negative_laplacian(terms: &Matrix<LaplacianEntry>) -> DMatrix<f64> {
    -dense(terms, |entry| {
        let identity = if entry.diagonal { 1.0 } else { 0.0 };
        (identity - quotient(entry.along)) + (identity - quotient(entry.against))
    })
}

fn vectors_of(spectrum: &Spectrum) -> DMatrix<f64> {
    dense(spectrum.eigenvectors(), |component| number(*component))
}

fn column_norms(left: &DMatrix<f64>, right: &DMatrix<f64>) -> Vec<f64> {
    (left * right)
        .column_iter()
        .map(|column| column.norm())
        .collect()
}

fn texts(values: &[f64]) -> Vec<String> {
    values.iter().map(f64::to_string).collect()
}

fn d_graphs() -> Vec<(&'static str, Graph)> {
    vec![
        (
            "path_star(4,4)",
            Graph::path_star(4, 4).expect("path_star(4,4)"),
        ),
        ("grid(4,4)", Graph::grid(4, 4).expect("grid(4,4)")),
        ("cycle(15)", Graph::cycle(15).expect("cycle(15)")),
        ("irregular()", Graph::irregular().expect("irregular()")),
    ]
}

fn trajectory_params() -> Params {
    Params {
        dimension: 20,
        max_steps: TRAJECTORY_STEPS,
        tolerance: pattern(1e-300),
        ..Params::default()
    }
}

/// A weight-tied run and the text that it wrote.
fn run_tied(
    graph: &Graph,
    params: &Params,
    seed: u64,
    should_stop: impl Fn() -> bool,
) -> (TiedRun, String) {
    let start = prepare_tied(graph, params, seed).expect("prepare_tied");
    let order = start.system.order();
    let walk = dense(start.system.walk(), |ratio| quotient(*ratio));
    let walk_symmetric = symmetrize(&walk);
    let spectrum = spectrum_of(negative_laplacian(&start.laplacian));
    let basis = vectors_of(&spectrum);
    let rank = fiedler_like_range(&spectrum, fiedler_spread(&spectrum)).end;
    let mut embedding = gaussian(&start.embedding, number(params.sigma));
    let mut update = DMatrix::zeros(0, 0);

    let mut journal: Journal<Matrix<Double>, StepRecord> = Journal::new(
        params.max_steps,
        params.tolerance,
        order,
        matrix_patterns(&embedding),
    );
    let mut text = String::new();
    loop {
        text.push_str(&journal.take_text());
        match journal.phase() {
            Phase::Measure => {
                let gram = &embedding * embedding.transpose();
                let probabilities = row_softmax(&gram);
                let coefficient = &walk_symmetric - symmetrize(&probabilities);
                update = (&coefficient * &embedding) * number(params.learning_rate);
                let relative = update.norm() / embedding.norm();
                let objective = log_likelihood(&walk, &gram);

                let from_probabilities = vectors_of(&spectrum_of(symmetrize(&probabilities)))
                    .columns(0, rank)
                    .into_owned();
                let from_gram = vectors_of(&spectrum_of(symmetrize(&gram)))
                    .columns(0, rank)
                    .into_owned();
                let residual = (&from_gram
                    - &from_probabilities * (from_probabilities.transpose() * &from_gram))
                    .norm();

                let projections = column_norms(&embedding.transpose(), &basis);
                let norms = column_norms(&coefficient, &basis);
                let cells = TiedCells {
                    objective: objective.to_string(),
                    relative_update: relative.to_string(),
                    observation8_residual: residual.to_string(),
                    projections: texts(&projections),
                    coefficient_norms: texts(&norms),
                };
                let record = StepRecord::new(
                    journal.steps(),
                    pattern(objective),
                    pattern(relative),
                    pattern(residual),
                    patterns(&projections),
                    patterns(&norms),
                );
                journal.record(record, &cells);
            }
            Phase::Poll => {
                journal.polled(should_stop(), matrix_patterns(&(&embedding + &update)));
                embedding = dense(journal.state(), |entry| number(*entry));
            }
            Phase::Ended(_) => break,
        }
    }
    let run = TiedRun::new(spectrum, journal.into_progress()).expect("an ended loop");
    (run, text)
}

fn rows_of(text: &str) -> Vec<Vec<String>> {
    text.lines()
        .map(|line| line.split(',').map(str::to_string).collect())
        .collect()
}

#[test]
fn tier1_node2vec_the_same_seed_reproduces_a_trajectory_bit_for_bit() {
    let params = trajectory_params();
    for (name, graph) in d_graphs() {
        let (first, first_text) = run_tied(&graph, &params, 20_260_829, || false);
        let (second, second_text) = run_tied(&graph, &params, 20_260_829, || false);
        let (other, _) = run_tied(&graph, &params, 20_260_830, || false);

        assert_eq!(first.steps(), TRAJECTORY_STEPS, "{name}: steps");
        assert_eq!(first.outcome(), Outcome::StepLimit, "{name}: outcome");
        assert_eq!(first.records().len(), TRAJECTORY_STEPS + 1, "{name}: records");
        assert_eq!(first.embedding(), second.embedding(), "{name}: embeddings");
        assert_eq!(first.records(), second.records(), "{name}: histories");
        assert_ne!(
            first.embedding(),
            other.embedding(),
            "{name}: two seeds produced an identical embedding"
        );
        assert_eq!(first_text, second_text, "{name}: lines");
    }
}

#[test]
fn the_history_csv_round_trips_the_in_memory_records() {
    let params = trajectory_params();
    for (name, graph) in d_graphs() {
        let (run, text) = run_tied(&graph, &params, 4_242, || false);
        let rows = rows_of(&text);
        let order = graph.order();

        assert_eq!(rows.len(), run.records().len() + 1, "{name}: lines");

        let mut header = vec![
            "step".to_string(),
            "objective".to_string(),
            "relative_update".to_string(),
            "observation8_residual".to_string(),
        ];
        header.extend((0..order).map(|i| format!("projection_{i}")));
        header.extend((0..order).map(|i| format!("coefficient_norm_{i}")));
        assert_eq!(rows[0], header, "{name}: header");

        for (record, row) in run.records().iter().zip(&rows[1..]) {
            assert_eq!(row.len(), 4 + 2 * order, "{name}: fields of step {}", record.step());
            assert_eq!(row[0].parse::<usize>().expect("step"), record.step(), "{name}");
            let mut stored = vec![
                record.objective(),
                record.relative_update(),
                record.observation8_residual(),
            ];
            stored.extend_from_slice(record.projections());
            stored.extend_from_slice(record.coefficient_norms());
            for (field, value) in row[1..].iter().zip(stored) {
                assert_eq!(field.parse::<f64>().expect("a number"), number(value), "{name}");
            }
        }
    }
}

#[test]
fn a_stopped_run_returns_the_state_that_it_recorded() {
    let graph = Graph::cycle(15).expect("cycle(15)");
    let params = Params {
        dimension: 16,
        max_steps: 200_000,
        ..Params::default()
    };
    let polls = std::cell::Cell::new(0_usize);
    let (run, text) = run_tied(&graph, &params, 20_260_829, || {
        let seen = polls.get();
        polls.set(seen + 1);
        seen == 5
    });

    assert_eq!(run.outcome(), Outcome::Stopped);
    assert_eq!(run.steps(), 5);
    let system = Node2Vec::new(&graph).expect("Node2Vec::new");
    let walk = dense(system.walk(), |ratio| quotient(*ratio));
    let embedding = dense(run.embedding(), |entry| number(*entry));
    let objective = log_likelihood(&walk, &(&embedding * embedding.transpose()));
    let recorded = number(run.last().expect("a record").objective());
    assert!((objective - recorded).abs() < 1e-12, "{objective:.12} against {recorded:.12}");

    let rows = rows_of(&text);
    assert_eq!(rows.len(), run.records().len() + 1);
    assert!(rows.iter().all(|row| row.len() == 4 + 2 * 15));
}

#[test]
fn node2vec_params_reject_degenerate_values() {
    let base = Params::default();
    match (Params { dimension: 0, ..base }).validate() {
        Err(Error::InvalidDimension { dimension }) => assert_eq!(dimension, 0),
        other => panic!("expected InvalidDimension, got {other:?}"),
    }
    match (Params { max_steps: 0, ..base }).validate() {
        Err(Error::ZeroMaxSteps) => {}
        other => panic!("expected ZeroMaxSteps, got {other:?}"),
    }

    for (parameter, params) in [
        (
            "sigma",
            Params {
                sigma: pattern(0.0),
                ..base
            },
        ),
        (
            "learning_rate",
            Params {
                learning_rate: pattern(-1.0),
                ..base
            },
        ),
        (
            "tolerance",
            Params {
                tolerance: pattern(f64::NAN),
                ..base
            },
        ),
    ] {
        match params.validate() {
            Err(Error::InvalidRunParameter {
                parameter: observed,
                ..
            }) => assert_eq!(observed, parameter, "rejected parameter"),
            other => panic!("expected InvalidRunParameter for {parameter}, got {other:?}"),
        }
    }
    assert!(base.validate().is_ok());
}

#[test]
fn the_default_parameters_have_their_values() {
    let params = Params::default();
    assert_eq!(params.dimension, 100);
    assert_eq!(number(params.sigma), 1.0);
    assert_eq!(number(params.learning_rate), 0.01);
    assert_eq!(params.max_steps, 10_000);
    assert_eq!(number(params.tolerance), 1e-8);
    assert_eq!(f64::from_bits(DEGENERACY_TOLERANCE), 1e-9);
    assert_eq!(f64::from_bits(FIEDLER_SPREAD_FRACTION), 0.0);
}

#[test]
fn node2vec_shape_mismatches_are_typed_errors() {
    let graph = Graph::cycle(15).expect("cycle(15)");
    let system = Node2Vec::new(&graph).expect("Node2Vec::new");

    match system.check_order(4) {
        Err(Error::EmbeddingOrderMismatch { rows, order }) => {
            assert_eq!((rows, order), (4, 15), "reported {rows} rows against {order}");
        }
        other => panic!("expected EmbeddingOrderMismatch, got {other:?}"),
    }
    match system.check_pair((15, 3), (15, 4)) {
        Err(Error::EmbeddingShapeMismatch {
            columns,
            other_columns,
        }) => assert_eq!((columns, other_columns), (3, 4)),
        other => panic!("expected EmbeddingShapeMismatch, got {other:?}"),
    }
    match system.check_pair((15, 3), (14, 4)) {
        Err(Error::EmbeddingOrderMismatch { rows, order }) => assert_eq!((rows, order), (14, 15)),
        other => panic!("expected EmbeddingOrderMismatch, got {other:?}"),
    }
    assert!(system.check_order(15).is_ok());
    assert!(system.check_pair((15, 3), (15, 3)).is_ok());
}

#[test]
fn a_seeded_draw_is_reproducible_and_seed_dependent() {
    let first = gaussian(&gaussian_matrix(5, 7, 20_260_829).expect("draws"), 0.5);
    let second = gaussian(&gaussian_matrix(5, 7, 20_260_829).expect("draws"), 0.5);
    let other = gaussian(&gaussian_matrix(5, 7, 20_260_830).expect("draws"), 0.5);
    for (index, (left, right)) in first.iter().zip(second.iter()).enumerate() {
        assert!(left == right, "entry {index} is {left:e} and then {right:e}");
    }
    assert!((&first - &other).amax() > 0.0, "two seeds drew an identical matrix");
}

#[test]
fn draws_follow_the_generators_stream_row_by_row() {
    let mut rng = ChaCha20Rng::seed_from_u64(20_260_829);
    let expected: Vec<f64> = (0..35)
        .map(|_| {
            let radial: f64 = OpenClosed01.sample(&mut rng);
            let angular: f64 = OpenClosed01.sample(&mut rng);
            0.5 * box_muller(radial, angular)
        })
        .collect();
    let drawn = gaussian(&gaussian_matrix(5, 7, 20_260_829).expect("draws"), 0.5);
    assert_eq!(drawn, DMatrix::from_row_iterator(5, 7, expected));

    let tall = gaussian_matrix(8, 7, 20_260_829).expect("draws");
    let short = gaussian_matrix(5, 7, 20_260_829).expect("draws");
    for i in 0..5 {
        assert_eq!(tall.row(i), short.row(i));
    }
}

#[test]
fn an_unrepresentable_draw_is_a_typed_error() {
    match gaussian_matrix(usize::MAX, 2, 0) {
        Err(Error::MatrixTooLarge { rows, columns }) => {
            assert_eq!((rows, columns), (usize::MAX, 2), "reported {rows}x{columns}");
        }
        other => panic!("expected MatrixTooLarge, got {other:?}"),
    }
}

#[test]
fn an_unrepresentable_embedding_is_a_typed_error() {
    let graph = Graph::cycle(15).expect("cycle(15)");
    let params = Params {
        dimension: usize::MAX,
        ..Params::default()
    };
    let system = Node2Vec::new(&graph).expect("Node2Vec::new");
    match system.initial_embedding(&params, 1) {
        Err(Error::EmbeddingTooLarge { rows, columns }) => {
            assert_eq!((rows, columns), (15, usize::MAX));
        }
        other => panic!("expected EmbeddingTooLarge, got {other:?}"),
    }
    // The parameters are refused before the graph, and the graph before the
    // size.
    let lonely = Graph::grid(1, 1).expect("grid(1,1)");
    match prepare_tied(&lonely, &Params { dimension: 0, ..params }, 1) {
        Err(Error::InvalidDimension { dimension: 0 }) => {}
        other => panic!("expected InvalidDimension, got {other:?}"),
    }
    match prepare_tied(&lonely, &params, 1) {
        Err(Error::IsolatedVertex { vertex: 0 }) => {}
        other => panic!("expected IsolatedVertex, got {other:?}"),
    }
    match prepare_untied(&graph, &params, 1) {
        Err(Error::EmbeddingTooLarge { .. }) => {}
        other => panic!("expected EmbeddingTooLarge, got {other:?}"),
    }
}

#[test]
fn the_instrumented_spread_is_zero() {
    for (name, graph) in d_graphs() {
        let start = prepare_tied(&graph, &trajectory_params(), 1).expect("prepare_tied");
        let spectrum = spectrum_of(negative_laplacian(&start.laplacian));
        let spread = fiedler_spread(&spectrum);
        assert_eq!(number(spread), 0.0, "{name}");
        // At a spread of zero the range is the second group.
        let groups = spectrum.degenerate_groups(Double::from_bits(DEGENERACY_TOLERANCE));
        assert_eq!(fiedler_like_range(&spectrum, spread), groups[1], "{name}");
    }
}

#[test]
fn the_two_factors_are_drawn_from_different_streams() {
    assert_eq!(second_factor_seed(0), 0x9E37_79B9_7F4A_7C15);
    assert_eq!(second_factor_seed(u64::MAX), 0x9E37_79B9_7F4A_7C14);

    let graph = Graph::cycle(15).expect("cycle(15)");
    let params = Params {
        dimension: 4,
        ..Params::default()
    };
    let start = prepare_untied(&graph, &params, 7).expect("prepare_untied");
    let second = gaussian_matrix(15, 4, second_factor_seed(7)).expect("draws");
    for i in 0..15 {
        assert_eq!(start.second.row(i), second.row(i));
        assert_ne!(start.first.row(i), start.second.row(i));
    }
}

fn record(step: usize, update: f64) -> UntiedStepRecord {
    UntiedStepRecord::new(
        step,
        pattern(-1.0),
        pattern(update),
        patterns(&[1.0, 2.0]),
        patterns(&[3.0, 4.0]),
    )
}

/// Two one-entry factors.
fn factors(first: f64, second: f64) -> (Matrix<Double>, Matrix<Double>) {
    (
        matrix_of(1, 1, |_, _| pattern(first)),
        matrix_of(1, 1, |_, _| pattern(second)),
    )
}

fn untied_loop(max_steps: usize) -> StepLoop<(Matrix<Double>, Matrix<Double>), UntiedStepRecord> {
    StepLoop::new(max_steps, pattern(0.5), factors(1.0, 2.0))
}

#[test]
fn the_step_loop_converges_at_the_tolerance() {
    let mut progress = untied_loop(10);
    progress.record(record(0, 0.75));
    assert_eq!(progress.phase(), Phase::Poll);
    progress.polled(false, factors(3.0, 4.0));
    assert_eq!(progress.steps(), 1);
    assert_eq!(*progress.state(), factors(3.0, 4.0));
    progress.record(record(1, 0.5));
    assert_eq!(progress.phase(), Phase::Ended(Outcome::Converged));

    let spectrum = spectrum_of(DMatrix::<f64>::identity(1, 1));
    let run = UntiedRun::new(spectrum, progress).expect("an ended loop");
    assert_eq!(run.outcome(), Outcome::Converged);
    assert_eq!(*run.first(), factors(3.0, 4.0).0);
    assert_eq!(*run.second(), factors(3.0, 4.0).1);
}

#[test]
fn the_step_loop_prefers_convergence_to_the_limit_and_the_limit_to_a_stop() {
    let mut progress = untied_loop(1);
    progress.record(record(0, f64::NAN));
    progress.polled(false, factors(3.0, 4.0));
    progress.record(record(1, f64::NAN));
    assert_eq!(progress.phase(), Phase::Ended(Outcome::StepLimit));

    let mut progress = untied_loop(1);
    progress.record(record(0, 2.0));
    progress.polled(false, factors(3.0, 4.0));
    progress.record(record(1, 0.25));
    assert_eq!(progress.phase(), Phase::Ended(Outcome::Converged));
}

#[test]
fn a_stop_leaves_the_pending_update_out() {
    let mut progress = untied_loop(10);
    progress.record(record(0, 2.0));
    progress.polled(true, factors(3.0, 4.0));
    assert_eq!(progress.phase(), Phase::Ended(Outcome::Stopped));
    assert_eq!(progress.steps(), 0);

    let spectrum = spectrum_of(DMatrix::<f64>::identity(1, 1));
    let run = UntiedRun::new(spectrum, progress).expect("an ended loop");
    assert_eq!(run.outcome(), Outcome::Stopped);
    assert_eq!(run.records().len(), 1);
    let last = run.last().expect("a record");
    assert_eq!(last.step(), 0);
    assert_eq!(last.first_projections(), patterns(&[1.0, 2.0]).as_slice());
    assert_eq!(last.second_projections(), patterns(&[3.0, 4.0]).as_slice());
    assert_eq!(*run.first(), factors(1.0, 2.0).0);
    assert_eq!(*run.second(), factors(1.0, 2.0).1);
    assert_eq!(run.spectrum().order(), 1);
}

#[test]
fn an_unfinished_loop_is_no_run() {
    let spectrum = spectrum_of(DMatrix::<f64>::identity(1, 1));
    assert!(UntiedRun::new(spectrum, untied_loop(10)).is_none());
}

#[test]
fn the_top_projection_is_the_first() {
    let record = StepRecord::new(
        0,
        pattern(1.0),
        pattern(2.0),
        pattern(3.0),
        patterns(&[4.0, 5.0]),
        patterns(&[6.0, 7.0]),
    );
    assert_eq!(number(record.degenerate_projection()), 4.0);
}

#[test]
fn the_untied_lines_have_their_layout() {
    let mut text = String::new();
    write_untied_header(&mut text, 2);
    let cells = UntiedCells {
        objective: "-1.5".to_string(),
        relative_update: "0.25".to_string(),
        first_projections: texts(&[1.0, 2.0]),
        second_projections: texts(&[3.5, 4.0]),
    };
    write_untied_row(&mut text, &record(1203, 0.25), &cells);
    assert_eq!(
        text,
        "step,objective,relative_update,first_projection_0,first_projection_1,\
         second_projection_0,second_projection_1\n1203,-1.5,0.25,1,2,3.5,4\n"
    );
}

#[test]
fn the_tied_lines_have_their_layout() {
    let mut text = String::new();
    write_tied_header(&mut text, 1);
    let cells = TiedCells {
        objective: "-1.5".to_string(),
        relative_update: "0.25".to_string(),
        observation8_residual: "0".to_string(),
        projections: texts(&[1.0]),
        coefficient_norms: texts(&[3.5]),
    };
    let record = StepRecord::new(
        12,
        pattern(-1.5),
        pattern(0.25),
        pattern(0.0),
        patterns(&[1.0]),
        patterns(&[3.5]),
    );
    write_tied_row(&mut text, &record, &cells);
    assert_eq!(
        text,
        "step,objective,relative_update,observation8_residual,projection_0,coefficient_norm_0\n\
         12,-1.5,0.25,0,1,3.5\n"
    );
}
