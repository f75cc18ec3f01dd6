//! The TinyNN system: parameters, shapes, shells, the associative metric, the
//! geometry criterion, and the readings of a run.

use nalgebra::DMatrix;
use rand::distr::{Distribution, OpenClosed01};
use rand::RngCore;
use rediscovery::double::Double;
use rediscovery::error::Error;
use rediscovery::graph::Graph;
use rediscovery::matrix::Matrix;
use rediscovery::node2vec::second_factor_seed;
use rediscovery::numerics::{gaussian_matrix, Draw};
use rediscovery::output::write_matrix_csv;
use rediscovery::progress::{Outcome, Phase};
use rediscovery::spectral::Ratio;
use rediscovery::tinynn::{
    advance, distance_shells, prepare, shell_margin, write_header, write_row, Activation, Descent,
    Params, Parameters, RecordCells, Regime, Run, StepRecord, TinyNn, FULL_MEMORIZATION,
    FULL_MEMORIZATION_SLACK, GEOMETRY_MARGIN, GEOMETRY_SHELLS,
};

fn pattern(value: f64) -> Double {
    Double::from_bits(value.to_bits())
}

fn number(value: Double) -> f64 {
    f64::from_bits(value.to_bits())
}

fn patterns(values: &[f64]) -> Vec<Double> {
    values.iter().copied().map(pattern).collect()
}

fn matrix_of<T>(rows: usize, columns: usize, entry: impl Fn(usize, usize) -> T) -> Matrix<T> {
    let lines = (0..rows)
        .map(|i| (0..columns).map(|j| entry(i, j)).collect())
        .collect();
    Matrix::from_rows(columns, lines).expect("rows of equal length")
}

fn matrix_patterns(matrix: &DMatrix<f64>) -> Matrix<Double> {
    matrix_of(matrix.nrows(), matrix.ncols(), |i, j| pattern(matrix[(i, j)]))
}

fn floats(matrix: &Matrix<Double>) -> DMatrix<f64> {
    DMatrix::from_fn(matrix.nrows(), matrix.ncols(), |i, j| number(*matrix.at(i, j)))
}

/// Adds `scale` times each number of `source` to the one of `target`.
fn add_scaled(target: &mut [f64], scale: f64, source: &[f64]) {
    for (sum, value) in target.iter_mut().zip(source) {
        *sum += scale * value;
    }
}

/// `left * right`, column by column.
fn times(left: &DMatrix<f64>, right: &DMatrix<f64>) -> DMatrix<f64> {
    let (rows, inner) = left.shape();
    let mut product = DMatrix::zeros(rows, right.ncols());
    for (target, scales) in product
        .as_mut_slice()
        .chunks_exact_mut(rows)
        .zip(right.as_slice().chunks_exact(inner))
    {
        for (source, scale) in left.as_slice().chunks_exact(rows).zip(scales) {
            add_scaled(target, *scale, source);
        }
    }
    product
}

/// `left * right.transpose()`, without the transpose.
fn times_transposed(left: &DMatrix<f64>, right: &DMatrix<f64>) -> DMatrix<f64> {
    let (rows, columns) = (left.nrows(), right.nrows());
    let mut product = DMatrix::zeros(rows, columns);
    for (source, scales) in left
        .as_slice()
        .chunks_exact(rows)
        .zip(right.as_slice().chunks_exact(columns))
    {
        for (target, scale) in product.as_mut_slice().chunks_exact_mut(rows).zip(scales) {
            add_scaled(target, *scale, source);
        }
    }
    product
}

fn d_graphs() -> Vec<(&'static str, Graph)> {
    vec![
        (
            "path_star(4,4)",
            Graph::path_star(4, 4).expect("path_star(4,4)"),
        ),
        ("grid(4,4)", Graph::grid(4, 4).expect("grid(4,4)")),
        ("cycle(15)", Graph::cycle(15).expect("cycle(15)")),
        ("irregular()", Graph::irregular().expect("irregular()")),
    ]
}

fn adjacency_of(graph: &Graph) -> DMatrix<f64> {
    DMatrix::from_fn(graph.order(), graph.order(), |u, v| {
        if *graph.adjacency().at(u, v) {
            1.0
        } else {
            0.0
        }
    })
}

fn row_softmax(logits: &DMatrix<f64>) -> DMatrix<f64> {
    let mut probabilities = logits.clone();
    for mut row in probabilities.row_iter_mut() {
        let peak = row.iter().copied().fold(f64::NEG_INFINITY, f64::max);
        row.apply(|entry| *entry = (*entry - peak).exp());
        let total = row.sum();
        row /= total;
    }
    probabilities
}

fn score(system: &TinyNn, probabilities: &DMatrix<f64>) -> f64 {
    let shares = system.associative_score(&matrix_patterns(probabilities));
    let total: f64 = shares
        .iter()
        .map(|share| share.numerator as f64 / share.denominator as f64)
        .sum();
    total / system.order() as f64
}

fn shell_means(system: &TinyNn, cosines: &DMatrix<f64>) -> Vec<f64> {
    (1..=GEOMETRY_SHELLS)
        .map(|distance| {
            let pairs = system.shell(distance);
            let total: f64 = pairs.iter().map(|&(u, v)| cosines[(u, v)]).sum();
            total / pairs.len() as f64
        })
        .collect()
}

fn margin(means: &[f64]) -> f64 {
    let separation = match means {
        [.., above, deepest] => above - deepest,
        _ => f64::NAN,
    };
    number(shell_margin(&patterns(means), pattern(separation)))
}

fn cosine_similarity(embedding: &DMatrix<f64>) -> DMatrix<f64> {
    let norms: Vec<f64> = embedding.row_iter().map(|row| row.norm()).collect();
    let gram = times_transposed(embedding, embedding);
    DMatrix::from_fn(embedding.nrows(), embedding.nrows(), |i, j| {
        let scale = norms[i] * norms[j];
        if scale > 0.0 {
            gram[(i, j)] / scale
        } else {
            0.0
        }
    })
}

struct Replay(u64);

impl RngCore for Replay {
    fn next_u32(&mut self) -> u32 {
        self.0 as u32
    }

    fn next_u64(&mut self) -> u64 {
        self.0
    }

    fn fill_bytes(&mut self, bytes: &mut [u8]) {
        for (slot, byte) in bytes.iter_mut().zip(self.0.to_le_bytes()) {
            *slot = byte;
        }
    }
}

fn gaussian(draws: &Matrix<Draw>, sigma: f64) -> DMatrix<f64> {
    DMatrix::from_fn(draws.nrows(), draws.ncols(), |i, j| {
        let draw = draws.at(i, j);
        let radial: f64 = OpenClosed01.sample(&mut Replay(draw.radial));
        let angular: f64 = OpenClosed01.sample(&mut Replay(draw.angular));
        sigma * ((-2.0 * radial.ln()).sqrt() * (std::f64::consts::TAU * angular).cos())
    })
}

fn log_likelihood(weights: &DMatrix<f64>, logits: &DMatrix<f64>) -> f64 {
    let mut total = 0.0;
    for i in 0..logits.nrows() {
        let row = logits.row(i);
        let peak = row.iter().copied().fold(f64::NEG_INFINITY, f64::max);
        let shifted: f64 = row.iter().map(|entry| (entry - peak).exp()).sum();
        for j in 0..logits.ncols() {
            if weights[(i, j)] > 0.0 {
                total += weights[(i, j)] * (logits[(i, j)] - peak - shifted.ln());
            }
        }
    }
    total
}

/// A run with a linear hidden layer, and the history and cosine texts that it
/// wrote.
fn run_until(
    graph: &Graph,
    params: &Params,
    seed: u64,
    should_stop: impl Fn() -> bool,
) -> (Run, String, String) {
    assert_eq!(params.activation, Activation::Linear);
    let start = prepare(graph, params, seed).expect("prepare");
    let system = start.system;
    let rate = number(params.learning_rate);
    let targets = DMatrix::from_fn(system.order(), system.order(), |u, v| {
        let ratio = system.walk().at(u, v);
        ratio.numerator as f64 / ratio.denominator as f64
    });
    let mut embedding = gaussian(&start.embedding, number(params.embedding_sigma));
    let mut weight = gaussian(&start.weight, number(params.weight_sigma));
    let mut cosines = cosine_similarity(&embedding);
    let mut weight_update = DMatrix::zeros(0, 0);
    let mut embedding_update: Option<DMatrix<f64>> = None;

    let parameters = Parameters::new(matrix_patterns(&embedding), matrix_patterns(&weight))
        .expect("Parameters::new");
    let mut descent = Descent::new(params, parameters);
    let mut text = String::new();
    loop {
        text.push_str(&descent.take_text());
        match descent.phase() {
            Phase::Measure => {
                let hidden = times(&embedding, &weight);
                let logits = times_transposed(&hidden, &embedding);
                let probabilities = row_softmax(&logits);
                let residual = &probabilities - &targets;
                let pre_gradient = times(&residual, &embedding);
                weight_update = times(&embedding.transpose(), &pre_gradient) * rate;
                embedding_update = if params.regime.trains_embedding() {
                    let gradient = times(&residual.transpose(), &hidden)
                        + times_transposed(&pre_gradient, &weight);
                    Some(gradient * rate)
                } else {
                    None
                };
                let moved =
                    weight_update.norm() + embedding_update.as_ref().map_or(0.0, DMatrix::norm);
                let relative = moved / (weight.norm() + embedding.norm());
                let means = shell_means(&system, &cosines);
                let separation = means[GEOMETRY_SHELLS - 2] - means[GEOMETRY_SHELLS - 1];
                let loss = -log_likelihood(&targets, &logits);
                let share = score(&system, &probabilities);
                let record = StepRecord::new(
                    descent.steps(),
                    pattern(loss),
                    pattern(share),
                    pattern(relative),
                    patterns(&means),
                    pattern(separation),
                );
                let cells = RecordCells {
                    loss: loss.to_string(),
                    associative_score: share.to_string(),
                    geometry_margin: number(record.geometry_margin()).to_string(),
                    relative_update: relative.to_string(),
                    shell_means: means.iter().map(f64::to_string).collect(),
                };
                descent.record(record, &cells);
            }
            Phase::Poll => {
                descent.polled(
                    should_stop(),
                    matrix_patterns(&(&weight - &weight_update)),
                    embedding_update
                        .as_ref()
                        .map(|update| matrix_patterns(&(&embedding - update))),
                );
                weight = floats(descent.state().weight());
                embedding = floats(descent.state().embedding());
                if params.regime.trains_embedding() {
                    cosines = cosine_similarity(&embedding);
                }
            }
            Phase::Ended(_) => break,
        }
    }
    let cells = matrix_of(cosines.nrows(), cosines.ncols(), |i, j| {
        cosines[(i, j)].to_string()
    });
    let mut dump = String::new();
    write_matrix_csv(&mut dump, &cells);
    (Run::new(descent).expect("an ended loop"), text, dump)
}

fn run_into(graph: &Graph, params: &Params, seed: u64) -> (Run, String, String) {
    run_until(graph, params, seed, || false)
}

#[test]
fn tier2_tinynn_the_same_seed_reproduces_a_trajectory_bit_for_bit() {
    let params = Params {
        max_steps: 25,
        tolerance: pattern(1e-300),
        regime: Regime::LearnableEmbedding,
        ..Params::default()
    };
    for (name, graph) in d_graphs() {
        let (first, first_text, first_dump) = run_into(&graph, &params, 20_260_829);
        let (second, second_text, second_dump) = run_into(&graph, &params, 20_260_829);
        let (other, _, _) = run_into(&graph, &params, 20_260_830);

        assert_eq!(first.steps(), 25, "{name}: steps");
        assert_eq!(
            first.parameters().embedding(),
            second.parameters().embedding(),
            "{name}: embeddings"
        );
        assert_eq!(
            first.parameters().weight(),
            second.parameters().weight(),
            "{name}: weights"
        );
        assert_eq!(first.records(), second.records(), "{name}: histories");
        assert_ne!(
            first.parameters().embedding(),
            other.parameters().embedding(),
            "{name}: two seeds produced an identical embedding"
        );
        assert_eq!(first_text, second_text, "{name}: history");
        assert_eq!(first_dump, second_dump, "{name}: cosines");
    }
}

#[test]
fn the_frozen_run_memorizes_without_moving_its_embedding() {
    let params = Params {
        max_steps: 200,
        ..Params::default()
    };
    for (name, graph) in d_graphs() {
        let (run, _, _) = run_into(&graph, &params, 20_260_829);

        let peak = number(run.peak_associative_score());
        assert!(
            peak >= 1.0 - f64::from_bits(FULL_MEMORIZATION_SLACK),
            "{name}: the frozen run peaked at a top-d score of {peak:.6} in 200 steps"
        );

        let first = number(run.records()[0].geometry_margin());
        let last = number(run.last().expect("a record").geometry_margin());
        assert!(
            (first - last).abs() < 1e-12,
            "{name}: the frozen run's margin moved from {first:.12} to {last:.12}"
        );
        assert!(
            first < f64::from_bits(GEOMETRY_MARGIN),
            "{name}: the seeded draw already scores {first:.6}"
        );
    }
}

#[test]
fn a_frozen_run_keeps_its_embedding() {
    let graph = Graph::grid(4, 4).expect("grid(4,4)");
    let params = Params {
        width: 24,
        max_steps: 8,
        tolerance: pattern(1e-300),
        ..Params::default()
    };
    let drawn = prepare(&graph, &params, 3).expect("prepare");
    let embedding = matrix_patterns(&gaussian(&drawn.embedding, number(params.embedding_sigma)));
    let weight = matrix_patterns(&gaussian(&drawn.weight, number(params.weight_sigma)));

    let (frozen, _, _) = run_into(&graph, &params, 3);
    assert_eq!(frozen.steps(), 8);
    assert_eq!(*frozen.parameters().embedding(), embedding);
    assert_ne!(*frozen.parameters().weight(), weight);

    let learnable = Params {
        regime: Regime::LearnableEmbedding,
        ..params
    };
    let (moved, _, _) = run_into(&graph, &learnable, 3);
    assert_ne!(*moved.parameters().embedding(), embedding);
    assert_ne!(*moved.parameters().weight(), weight);
}

#[test]
fn a_step_replaces_the_blocks_that_its_regime_trains() {
    let filled = |rows, columns, value| matrix_of(rows, columns, |_, _| pattern(value));
    let before = Parameters::new(filled(3, 2, 1.0), filled(2, 2, 2.0)).expect("Parameters::new");
    let frozen = Regime::FrozenEmbedding;
    let learnable = Regime::LearnableEmbedding;

    let next = advance(&before, frozen, filled(2, 2, 4.0), Some(filled(3, 2, 3.0)));
    assert_eq!(*next.embedding(), filled(3, 2, 1.0));
    assert_eq!(*next.weight(), filled(2, 2, 4.0));

    let next = advance(&before, learnable, filled(2, 2, 4.0), Some(filled(3, 2, 3.0)));
    assert_eq!(*next.embedding(), filled(3, 2, 3.0));
    assert_eq!(*next.weight(), filled(2, 2, 4.0));

    let next = advance(&before, learnable, filled(2, 2, 4.0), None);
    assert_eq!(*next.embedding(), filled(3, 2, 1.0));
}

#[test]
fn a_stopped_run_returns_the_parameters_that_it_recorded() {
    let graph = Graph::cycle(15).expect("cycle(15)");
    let params = Params {
        width: 24,
        regime: Regime::LearnableEmbedding,
        ..Params::default()
    };
    let polls = std::cell::Cell::new(0_usize);
    let (stopped, text, _) = run_until(&graph, &params, 5, || {
        let seen = polls.get();
        polls.set(seen + 1);
        seen == 4
    });
    assert_eq!(stopped.outcome(), Outcome::Stopped);
    assert_eq!(stopped.steps(), 4);
    assert_eq!(stopped.records().len(), 5);
    assert_eq!(text.lines().count(), 6);

    let (limited, limited_text, _) = run_into(&graph, &Params { max_steps: 4, ..params }, 5);
    assert_eq!(limited.outcome(), Outcome::StepLimit);
    assert_eq!(stopped.parameters(), limited.parameters());
    assert_eq!(stopped.records(), limited.records());
    assert_eq!(text, limited_text);
}

#[test]
fn the_frozen_run_memorizes_the_edges_within_two_steps() {
    let params = Params {
        max_steps: 10,
        ..Params::default()
    };
    for (name, graph) in d_graphs() {
        let (run, _, dump) = run_into(&graph, &params, 20_260_829);
        let initial = number(run.records()[0].associative_score());
        assert!(initial < 1.0, "{name}: the score is {initial:.15} before the first update");
        let step = run
            .associative_step()
            .unwrap_or_else(|| panic!("{name}: peaked at {:?}", run.peak_associative_score()));
        assert!(step <= 2, "{name}: the score first reached 1 at step {step}");
        assert_eq!(dump.lines().count(), graph.order() + 1, "{name}: cosine lines");

        // A frozen embedding keeps its cosines and so its margin.
        let first = run.records()[0].geometry_margin();
        let last = run.last().expect("a record").geometry_margin();
        assert_eq!(first, last, "{name}: the margin moved");
    }
}

#[test]
fn a_learnable_run_is_reproducible_and_seed_dependent() {
    let params = Params {
        width: 24,
        max_steps: 25,
        tolerance: pattern(1e-300),
        regime: Regime::LearnableEmbedding,
        ..Params::default()
    };
    for (name, graph) in d_graphs() {
        let (first, first_text, first_dump) = run_into(&graph, &params, 20_260_829);
        let (second, second_text, second_dump) = run_into(&graph, &params, 20_260_829);
        let (other, _, _) = run_into(&graph, &params, 20_260_830);

        assert_eq!(first.steps(), 25, "{name}: steps");
        assert_eq!(first.outcome(), Outcome::StepLimit, "{name}: outcome");
        assert_eq!(first.parameters(), second.parameters(), "{name}: parameters");
        assert_eq!(first.records(), second.records(), "{name}: histories");
        assert_ne!(
            first.parameters().embedding(),
            other.parameters().embedding(),
            "{name}: two seeds produced an identical embedding"
        );
        assert_eq!(first_text, second_text, "{name}: history");
        assert_eq!(first_text.lines().count(), 27, "{name}: history lines");
        assert!(first_text
            .lines()
            .all(|line| line.split(',').count() == 5 + GEOMETRY_SHELLS));
        assert_eq!(first_dump, second_dump, "{name}: cosines");
    }
}

#[test]
fn the_associative_score_reads_the_top_d_ranking() {
    let slack = f64::from_bits(FULL_MEMORIZATION_SLACK);
    for (name, graph) in d_graphs() {
        let system = TinyNn::new(&graph).expect("TinyNn::new");
        let order = graph.order();

        let memorized = row_softmax(&(adjacency_of(&graph) * 10.0));
        let full = score(&system, &memorized);
        assert!((full - 1.0).abs() < slack, "{name}: peaked on the neighbours scores {full:.15}");

        let uniform = DMatrix::from_element(order, order, 1.0 / order as f64);
        let flat = score(&system, &uniform);
        assert!(flat < 1.0 - slack, "{name}: a uniform distribution scores {flat:.15}");
    }
}

#[test]
fn the_associative_shares_break_ties_by_index() {
    let graph = Graph::cycle(15).expect("cycle(15)");
    let system = TinyNn::new(&graph).expect("TinyNn::new");
    let uniform = matrix_of(15, 15, |_, _| pattern(0.5));
    let shares = system.associative_score(&uniform);
    // All tie, so the top two are vertices 0 and 1.
    for (u, share) in shares.iter().enumerate() {
        let hits = (0..2).filter(|&v| *graph.adjacency().at(u, v)).count();
        assert_eq!(
            *share,
            Ratio {
                numerator: hits,
                denominator: 2
            },
            "vertex {u}"
        );
    }
}

#[test]
fn a_full_share_takes_every_neighbour_above_every_other_vertex() {
    let graph = Graph::path_star(4, 4).expect("path_star(4,4)");
    let system = TinyNn::new(&graph).expect("TinyNn::new");
    // Vertex 0 itself outranks its neighbours, so one of the four is missed.
    let scores = matrix_of(17, 17, |u, v| {
        if *graph.adjacency().at(u, v) {
            pattern(1.0)
        } else if u == v {
            pattern(2.0)
        } else {
            pattern(0.0)
        }
    });
    let shares = system.associative_score(&scores);
    assert_eq!(
        shares[0],
        Ratio {
            numerator: 3,
            denominator: 4
        }
    );
}

#[test]
fn the_geometry_margin_separates_multi_hop_structure_from_adjacency() {
    for (name, graph) in d_graphs() {
        let system = TinyNn::new(&graph).expect("TinyNn::new");
        let order = graph.order();

        let adjacency_margin = margin(&shell_means(&system, &adjacency_of(&graph)));
        assert!(adjacency_margin.abs() < 1e-15, "{name}: adjacency scores {adjacency_margin:.6e}");

        let mut decaying = DMatrix::<f64>::identity(order, order);
        for distance in 1..=GEOMETRY_SHELLS {
            let value = 1.0 - 0.2 * distance as f64;
            for &(u, v) in system.shell(distance) {
                decaying[(u, v)] = value;
                decaying[(v, u)] = value;
            }
        }
        let decaying_margin = margin(&shell_means(&system, &decaying));
        let expected = (1.0 - 0.2 * GEOMETRY_SHELLS as f64).abs().min(0.2);
        assert!(
            (decaying_margin - expected).abs() < 1e-12,
            "{name}: decaying by 0.2 per shell scores {decaying_margin:.15}, expected {expected}"
        );
    }
}

#[test]
fn the_geometry_margin_reads_a_negative_deepest_shell() {
    let cases: [(&str, [f64; 3], f64); 4] = [
        (
            "measured cycle",
            [-0.162_791, 0.347_921, -0.096_173],
            0.096_173,
        ),
        ("separation binds", [0.0, -0.10, -0.40], 0.30),
        ("inverted shells", [0.0, -0.40, -0.10], -0.30),
        ("flat", [0.2, 0.2, 0.2], 0.0),
    ];
    for (label, means, expected) in cases {
        let observed = margin(&means);
        assert!(
            (observed - expected).abs() < 1e-9,
            "{label}: {means:?} score {observed:.9}, expected {expected:.9}"
        );
    }
}

#[test]
fn an_adjacency_row_embedding_scores_zero_on_the_deepest_shell() {
    for (name, graph) in d_graphs() {
        let system = TinyNn::new(&graph).expect("TinyNn::new");
        let cosines = cosine_similarity(&adjacency_of(&graph));
        let means = shell_means(&system, &cosines);
        assert!(means[GEOMETRY_SHELLS - 1].abs() < 1e-15, "{name}: deepest mean");
        assert!(margin(&means).abs() < 1e-15, "{name}: margin");
        assert!(means[GEOMETRY_SHELLS - 2] > 0.1, "{name}: distance-2 mean");
        for &(u, v) in system.shell(GEOMETRY_SHELLS) {
            for w in 0..graph.order() {
                assert!(
                    !(*graph.adjacency().at(u, w) && *graph.adjacency().at(v, w)),
                    "{name}: ({u}, {v}) share {w}"
                );
            }
        }
    }
}

#[test]
fn a_non_finite_cosine_matrix_scores_nan() {
    let graph = Graph::cycle(15).expect("cycle(15)");
    let system = TinyNn::new(&graph).expect("TinyNn::new");
    let broken = DMatrix::from_element(15, 15, f64::NAN);
    let means = shell_means(&system, &broken);
    assert!(margin(&means).is_nan());
    let threshold = Double::from_bits(GEOMETRY_MARGIN);
    assert_eq!(number(threshold), 0.05);
    assert!(!pattern(margin(&means)).reaches(threshold));
    // A profile of one entry has no shell above its deepest.
    assert!(margin(&[0.5]).is_nan());
}

#[test]
fn distance_shells_match_the_edge_and_cycle_counts() {
    for (name, graph) in d_graphs() {
        let system = TinyNn::new(&graph).expect("TinyNn::new");
        assert_eq!(system.shell(1).len(), graph.edge_count(), "{name}: shell 1");
    }
    let cycle = Graph::cycle(15).expect("cycle(15)");
    let system = TinyNn::new(&cycle).expect("TinyNn::new");
    for distance in 1..=GEOMETRY_SHELLS {
        assert_eq!(system.shell(distance).len(), 15, "cycle(15): shell {distance}");
    }
    assert!(system.shell(0).is_empty());
    assert!(system.shell(GEOMETRY_SHELLS + 1).is_empty());
    assert!(system.shell(usize::MAX).is_empty());
}

#[test]
fn the_shells_of_a_path_are_its_gaps() {
    let path = Graph::grid(1, 5).expect("grid(1,5)");
    let system = TinyNn::new(&path).expect("TinyNn::new");
    assert_eq!(system.shell(1), &[(0, 1), (1, 2), (2, 3), (3, 4)]);
    assert_eq!(system.shell(2), &[(0, 2), (1, 3), (2, 4)]);
    assert_eq!(system.shell(3), &[(0, 3), (1, 4)]);
}

#[test]
fn a_graph_without_enough_distance_shells_is_a_typed_error() {
    let complete = Graph::complete(7).expect("complete(7)");
    match TinyNn::new(&complete) {
        Err(Error::InsufficientDistanceShells { available }) => assert_eq!(available, 1),
        other => panic!("expected InsufficientDistanceShells, got {other:?}"),
    }
    let short = Graph::grid(1, 3).expect("grid(1,3)");
    match distance_shells(short.adjacency(), short.order()) {
        Err(Error::InsufficientDistanceShells { available }) => assert_eq!(available, 2),
        other => panic!("expected InsufficientDistanceShells, got {other:?}"),
    }
    let lonely = Graph::grid(1, 1).expect("grid(1,1)");
    match TinyNn::new(&lonely) {
        Err(Error::IsolatedVertex { vertex }) => assert_eq!(vertex, 0),
        other => panic!("expected IsolatedVertex, got {other:?}"),
    }
}

#[test]
fn tinynn_params_reject_degenerate_values() {
    let base = Params::default();
    match (Params { width: 0, ..base }).validate() {
        Err(Error::InvalidDimension { dimension }) => assert_eq!(dimension, 0),
        other => panic!("expected InvalidDimension, got {other:?}"),
    }
    match (Params { max_steps: 0, ..base }).validate() {
        Err(Error::ZeroMaxSteps) => {}
        other => panic!("expected ZeroMaxSteps, got {other:?}"),
    }
    for (parameter, params) in [
        (
            "embedding_sigma",
            Params {
                embedding_sigma: pattern(0.0),
                ..base
            },
        ),
        (
            "weight_sigma",
            Params {
                weight_sigma: pattern(f64::INFINITY),
                ..base
            },
        ),
        (
            "learning_rate",
            Params {
                learning_rate: pattern(-1.0),
                ..base
            },
        ),
        (
            "tolerance",
            Params {
                tolerance: pattern(f64::NAN),
                ..base
            },
        ),
    ] {
        match params.validate() {
            Err(Error::InvalidRunParameter {
                parameter: observed,
                ..
            }) => assert_eq!(observed, parameter, "rejected parameter"),
            other => panic!("expected InvalidRunParameter for {parameter}, got {other:?}"),
        }
    }
    assert!(base.validate().is_ok());
}

#[test]
fn the_default_setting_is_that_of_its_width() {
    let params = Params::default();
    let scale = 1.0 / 512.0_f64;
    assert_eq!(params, Params::for_width(512, pattern(scale.sqrt()), pattern(scale)));
    assert_eq!(number(params.learning_rate), 0.1);
    assert_eq!(params.max_steps, 2_000);
    assert_eq!(number(params.tolerance), 1e-10);
    assert_eq!(params.activation, Activation::Linear);
    assert_eq!(params.regime, Regime::FrozenEmbedding);
    assert!(!params.regime.trains_embedding());
    assert!(Regime::LearnableEmbedding.trains_embedding());
    assert_eq!(
        f64::from_bits(FULL_MEMORIZATION),
        1.0 - f64::from_bits(FULL_MEMORIZATION_SLACK)
    );
    assert_eq!(f64::from_bits(FULL_MEMORIZATION_SLACK), 1e-12);
}

#[test]
fn tinynn_shape_mismatches_are_typed_errors() {
    let zeros = |rows, columns| matrix_of(rows, columns, |_, _| pattern(0.0));
    match Parameters::new(zeros(15, 6), zeros(6, 5)) {
        Err(Error::WeightShapeMismatch {
            rows,
            columns,
            width,
        }) => assert_eq!((rows, columns, width), (6, 5, 6)),
        other => panic!("expected WeightShapeMismatch, got {other:?}"),
    }

    let graph = Graph::cycle(15).expect("cycle(15)");
    let system = TinyNn::new(&graph).expect("TinyNn::new");
    let wrong = Parameters::new(zeros(4, 6), zeros(6, 6)).expect("Parameters::new");
    assert_eq!(wrong.width(), 6);
    assert_eq!(wrong.weight().nrows(), 6);
    match system.check_order(wrong.embedding().nrows()) {
        Err(Error::EmbeddingOrderMismatch { rows, order }) => assert_eq!((rows, order), (4, 15)),
        other => panic!("expected EmbeddingOrderMismatch, got {other:?}"),
    }
    assert!(system.check_order(15).is_ok());
}

#[test]
fn a_start_draws_both_blocks_from_their_streams() {
    let graph = Graph::cycle(15).expect("cycle(15)");
    let params = Params {
        width: 6,
        ..Params::default()
    };
    let start = prepare(&graph, &params, 11).expect("prepare");
    let embedding = gaussian_matrix(15, 6, 11).expect("draws");
    let weight = gaussian_matrix(6, 6, second_factor_seed(11)).expect("draws");
    for i in 0..15 {
        assert_eq!(start.embedding.row(i), embedding.row(i));
    }
    for i in 0..6 {
        assert_eq!(start.weight.row(i), weight.row(i));
    }
    assert_eq!(start.system.walk().at(0, 1).denominator, 2);

    let wide = Params {
        width: usize::MAX,
        ..params
    };
    match prepare(&graph, &wide, 11) {
        Err(Error::MatrixTooLarge { rows, columns }) => {
            assert_eq!((rows, columns), (15, usize::MAX));
        }
        other => panic!("expected MatrixTooLarge, got {other:?}"),
    }
}

fn cells_of(margin: &str) -> RecordCells {
    RecordCells {
        loss: "2.5".to_string(),
        associative_score: "1".to_string(),
        geometry_margin: margin.to_string(),
        relative_update: "0.125".to_string(),
        shell_means: vec!["0".to_string(), "-0.5".to_string(), "1e-7".to_string()],
    }
}

/// A run with the given scores, and margins that equal the given separations.
fn run_with(readings: &[(f64, f64)]) -> Run {
    let params = Params {
        max_steps: readings.len() - 1,
        ..Params::default()
    };
    let unit = matrix_of(1, 1, |_, _| pattern(0.0));
    let parameters = Parameters::new(unit.clone(), unit.clone()).expect("Parameters::new");
    let mut descent = Descent::new(&params, parameters);
    for (step, (score, separation)) in readings.iter().enumerate() {
        let record = StepRecord::new(
            step,
            pattern(2.5),
            pattern(*score),
            pattern(1.0),
            patterns(&[0.0, 0.0, 1.0]),
            pattern(*separation),
        );
        descent.record(record, &cells_of("NaN"));
        if descent.phase() == Phase::Poll {
            descent.polled(false, unit.clone(), None);
        }
    }
    Run::new(descent).expect("an ended loop")
}

#[test]
fn a_run_reports_the_first_steps_and_the_peaks() {
    let run = run_with(&[
        (0.25, 0.01),
        (0.5, f64::NAN),
        (1.0, 0.06),
        (0.75, 0.04),
        (1.0, 0.05),
    ]);
    assert_eq!(run.outcome(), Outcome::StepLimit);
    assert_eq!(run.steps(), 4);
    assert_eq!(run.associative_step(), Some(2));
    assert_eq!(number(run.peak_associative_score()), 1.0);
    assert_eq!(run.geometry_step(Double::from_bits(GEOMETRY_MARGIN)), Some(2));
    assert_eq!(run.geometry_step(pattern(0.005)), Some(0));
    assert_eq!(run.geometry_step(pattern(0.07)), None);
    assert_eq!(number(run.peak_geometry_margin()), 0.06);
    let last = run.last().expect("a record");
    assert_eq!(last.step(), 4);
    assert_eq!(number(last.loss()), 2.5);
    assert_eq!(number(last.associative_score()), 1.0);
    assert_eq!(number(last.geometry_margin()), 0.05);
    assert_eq!(number(last.relative_update()), 1.0);
    assert_eq!(last.shell_means(), patterns(&[0.0, 0.0, 1.0]).as_slice());
    assert_eq!(run.records().len(), 5);
    assert_eq!(run.parameters().width(), 1);
}

#[test]
fn a_score_within_the_slack_is_full() {
    let run = run_with(&[(1.0 - 3e-12, 0.0), (1.0 - 1e-12, 0.0)]);
    assert_eq!(run.associative_step(), Some(1));
    let run = run_with(&[(0.5, 0.0), (0.75, 0.0)]);
    assert_eq!(run.associative_step(), None);
}

#[test]
fn the_history_lines_have_their_layout() {
    let mut text = String::new();
    write_header(&mut text);
    let record = StepRecord::new(
        10,
        pattern(2.5),
        pattern(1.0),
        pattern(0.125),
        patterns(&[f64::NAN, -0.5, 1e-7]),
        pattern(-0.5),
    );
    write_row(&mut text, &record, &cells_of("NaN"));
    assert_eq!(
        text,
        "step,loss,associative_score,geometry_margin,relative_update,shell_mean_1,shell_mean_2,\
         shell_mean_3\n10,2.5,1,NaN,0.125,0,-0.5,1e-7\n"
    );
}

#[test]
fn a_descent_hands_its_history_over_line_by_line() {
    let params = Params {
        max_steps: 1,
        ..Params::default()
    };
    let unit = matrix_of(1, 1, |_, _| pattern(0.0));
    let parameters = Parameters::new(unit.clone(), unit.clone()).expect("Parameters::new");
    let mut descent = Descent::new(&params, parameters);
    let record = |step| {
        StepRecord::new(
            step,
            pattern(2.5),
            pattern(1.0),
            pattern(0.125),
            patterns(&[0.0, -0.5, 1e-7]),
            pattern(-0.5),
        )
    };
    assert_eq!(
        descent.take_text(),
        "step,loss,associative_score,geometry_margin,relative_update,shell_mean_1,shell_mean_2,\
         shell_mean_3\n"
    );
    assert_eq!(descent.take_text(), "");
    descent.record(record(0), &cells_of("-0.5"));
    assert_eq!(descent.take_text(), "0,2.5,1,-0.5,0.125,0,-0.5,1e-7\n");
    descent.polled(false, unit, None);
    assert_eq!(descent.take_text(), "");
    descent.record(record(1), &cells_of("-0.5"));
    assert_eq!(descent.take_text(), "1,2.5,1,-0.5,0.125,0,-0.5,1e-7\n");
    assert_eq!(descent.phase(), Phase::Ended(Outcome::StepLimit));
}

#[test]
fn a_nan_in_any_shell_poisons_the_margin() {
    for means in [
        [f64::NAN, 0.5, 0.2],
        [0.7, f64::NAN, 0.2],
        [0.7, 0.5, f64::NAN],
    ] {
        assert!(number(shell_margin(&patterns(&means), pattern(0.3))).is_nan(), "{means:?}");
        let record = StepRecord::new(
            0,
            pattern(1.0),
            pattern(1.0),
            pattern(0.0),
            patterns(&means),
            pattern(0.3),
        );
        assert!(number(record.geometry_margin()).is_nan(), "{means:?}");
    }
    // Without the NaN the profile holds at its separation, capped by its
    // deepest mean.
    assert_eq!(margin(&[0.7, 0.5, 0.375]), 0.125);
}

#[test]
fn records_compare_their_values_as_numbers() {
    let record = |loss| {
        StepRecord::new(
            0,
            pattern(loss),
            pattern(1.0),
            pattern(0.125),
            patterns(&[0.0, -0.5, 0.25]),
            pattern(-0.5),
        )
    };
    assert_eq!(record(0.0), record(-0.0));
    assert_ne!(record(0.0), record(1.0));
    assert_ne!(record(f64::NAN), record(f64::NAN));

    let diverged = Params {
        tolerance: pattern(f64::NAN),
        ..Params::default()
    };
    assert_ne!(diverged, diverged);
    let filled = |value| {
        let unit = matrix_of(1, 1, |_, _| pattern(value));
        Parameters::new(unit.clone(), unit).expect("Parameters::new")
    };
    assert_eq!(filled(0.0), filled(-0.0));
    assert_ne!(filled(f64::NAN), filled(f64::NAN));
}

#[test]
fn a_larger_budget_extends_a_history() {
    let graph = Graph::grid(4, 4).expect("grid(4,4)");
    let params = Params {
        width: 12,
        tolerance: pattern(1e-300),
        max_steps: 5,
        ..Params::default()
    };
    let (short, short_text, _) = run_into(&graph, &params, 9);
    let (again, again_text, _) = run_into(&graph, &params, 9);
    let (long, long_text, _) = run_into(&graph, &Params { max_steps: 9, ..params }, 9);
    assert_eq!(short.records(), again.records());
    assert_eq!(short.parameters(), again.parameters());
    assert_eq!(short_text, again_text);
    assert_eq!(long.steps(), 9);
    assert_eq!(short.records(), &long.records()[..6]);
    assert!(long_text.starts_with(&short_text));
    // A frozen run keeps the profile that it started with.
    for record in long.records() {
        assert_eq!(record.shell_means(), long.records()[0].shell_means());
        assert_eq!(record.geometry_margin(), long.records()[0].geometry_margin());
    }
}
