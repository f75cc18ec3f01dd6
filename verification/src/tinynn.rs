//! The TinyNN system: one wide trainable matrix between a tied embedding and
//! unembedding, with its parameters, its graph-derived quantities, its
//! associative metric, and the records and decisions of its gradient-descent
//! runs.

use crate::counting::{
    count_true, lemma_count_bound, lemma_count_gap, lemma_count_is_cardinality,
    lemma_count_stretch, true_indices,
};
use crate::double::{comparisons_are_numeric, peak, peak_of, Double};
use crate::error::Error;
use crate::graph::{degree_of, simple, Graph};
use crate::journal::{Journal, Logged};
use crate::matrix::Matrix;
use crate::node2vec::{second_factor_seed, second_seed};
use crate::numerics::{gaussian_matrix, is_seeded_draw, Draw};
use crate::progress::{answered, numbered_records, recorded, run_ended, Outcome, Phase, Record};
use crate::ranking::{
    descending_order, is_ranking, places_count_those_before, ranking, ranking_exists,
    rankings_sort, ranks_before,
};
use crate::shells::{is_shell, leading_populated};
use crate::spectral::{
    first_isolated, no_isolated, transition, walk_entry, walks_step_evenly, Ratio,
};
use crate::text::{
    comma_led, comma_led_splits, decimal, line, numbered, push_cell, push_cells, push_decimal,
    push_newline, push_numbered, texts,
};
use std::path::Path;
use vstd::prelude::*;
use vstd::set_lib::set_int_range;
use vstd::string::StringExecFns;

pub use crate::shells::{distance_shells, GEOMETRY_SHELLS};

verus! {

/// Geometry margin at or above which an embedding counts as geometric: the bit
/// pattern of 0.05.
pub const GEOMETRY_MARGIN: u64 = 0x3FA9_9999_9999_999A;

/// Slack below 1 within which an associative score reads as full, absorbing the
/// rounding of a mean of fractions: the bit pattern of 1e-12.
pub const FULL_MEMORIZATION_SLACK: u64 = 0x3D71_9799_812D_EA11;

/// One less [`FULL_MEMORIZATION_SLACK`], rounded: the bit pattern of the score
/// from which on a run counts as having memorized.
pub const FULL_MEMORIZATION: u64 = 0x3FEF_FFFF_FFFF_DCD1;

/// Hidden-layer activation.
#[derive(Clone, Copy, Debug, PartialEq, Eq, Structural)]
pub enum Activation {
    /// The hidden state is the product of embedding and weight.
    Linear,
    /// The hidden state is the GELU of that product, in its tanh approximation.
    Gelu,
}

/// Which parameter blocks gradient descent updates.
#[derive(Clone, Copy, Debug, PartialEq, Eq, Structural)]
pub enum Regime {
    /// Only the weight is updated; the embedding stays at its draw.
    FrozenEmbedding,
    /// Both the embedding and the weight are updated.
    LearnableEmbedding,
}

impl Regime {
    /// Whether the embedding has a gradient.
    pub fn trains_embedding(self) -> (answer: bool)
        ensures
            answer == (self is LearnableEmbedding),
    {
        match self {
            Regime::FrozenEmbedding => false,
            Regime::LearnableEmbedding => true,
        }
    }
}

/// Run parameters for gradient descent.
///
/// [`Params::default`] is the associative setting at a width of 512.
#[derive(Clone, Copy, Debug, PartialEq)]
pub struct Params {
    /// Hidden width, the column count of the embedding and the order of the
    /// weight.
    pub width: usize,
    /// Standard deviation of the embedding's initial entries.
    pub embedding_sigma: Double,
    /// Standard deviation of the weight's initial entries.
    pub weight_sigma: Double,
    /// Descent step size.
    pub learning_rate: Double,
    /// Upper bound on applied updates.
    pub max_steps: usize,
    /// Relative update at or below which the run stops as converged.
    pub tolerance: Double,
    /// Hidden-layer activation.
    pub activation: Activation,
    /// Which parameter blocks the descent updates.
    pub regime: Regime,
}

impl Params {
    /// The associative setting at a hidden width: a step size of 0.1, 2000
    /// steps, a relative-update stop at 1e-10, a linear hidden layer and a
    /// frozen embedding. The two deviations are those of the width, its inverse
    /// square root and its inverse.
    pub fn for_width(width: usize, embedding_sigma: Double, weight_sigma: Double) -> (params:
        Params)
        ensures
            params.width == width,
            params.embedding_sigma == embedding_sigma,
            params.weight_sigma == weight_sigma,
            params.learning_rate.bits == 0x3FB9_9999_9999_999A,
            params.max_steps == 2_000,
            params.tolerance.bits == 0x3DDB_7CDF_D9D7_BDBB,
            params.activation == Activation::Linear,
            params.regime == Regime::FrozenEmbedding,
    {
        Params {
            width,
            embedding_sigma,
            weight_sigma,
            learning_rate: Double { bits: 0x3FB9_9999_9999_999A },
            max_steps: 2_000,
            tolerance: Double { bits: 0x3DDB_7CDF_D9D7_BDBB },
            activation: Activation::Linear,
            regime: Regime::FrozenEmbedding,
        }
    }

    /// The first thing wrong with the parameters.
    pub open spec fn fault(self) -> Option<Error> {
        if self.width == 0 {
            Some(Error::InvalidDimension { dimension: 0 })
        } else if self.max_steps == 0 {
            Some(Error::ZeroMaxSteps)
        } else if !self.embedding_sigma.positive_finite() {
            Some(
                Error::InvalidRunParameter {
                    parameter: "embedding_sigma",
                    value: self.embedding_sigma,
                },
            )
        } else if !self.weight_sigma.positive_finite() {
            Some(
                Error::InvalidRunParameter {
                    parameter: "weight_sigma",
                    value: self.weight_sigma,
                },
            )
        } else if !self.learning_rate.positive_finite() {
            Some(
                Error::InvalidRunParameter {
                    parameter: "learning_rate",
                    value: self.learning_rate,
                },
            )
        } else if !self.tolerance.positive_finite() {
            Some(Error::InvalidRunParameter { parameter: "tolerance", value: self.tolerance })
        } else {
            None
        }
    }

    /// Rejects a zero width, a zero step budget, and the first of the two
    /// deviations, the step size and the tolerance that is not positive and
    /// finite.
    pub fn validate(&self) -> (result: Result<(), Error>)
        ensures
            result == match self.fault() {
                Some(error) => Err::<(), Error>(error),
                None => Ok(()),
            },
    {
        if self.width == 0 {
            return Err(Error::InvalidDimension { dimension: self.width });
        }
        if self.max_steps == 0 {
            return Err(Error::ZeroMaxSteps);
        }
        if !self.embedding_sigma.is_positive_finite() {
            return Err(
                Error::InvalidRunParameter {
                    parameter: "embedding_sigma",
                    value: self.embedding_sigma,
                },
            );
        }
        if !self.weight_sigma.is_positive_finite() {
            return Err(
                Error::InvalidRunParameter {
                    parameter: "weight_sigma",
                    value: self.weight_sigma,
                },
            );
        }
        if !self.learning_rate.is_positive_finite() {
            return Err(
                Error::InvalidRunParameter {
                    parameter: "learning_rate",
                    value: self.learning_rate,
                },
            );
        }
        if !self.tolerance.is_positive_finite() {
            return Err(
                Error::InvalidRunParameter { parameter: "tolerance", value: self.tolerance },
            );
        }
        Ok(())
    }
}

impl Default for Params {
    fn default() -> (params: Params)
        ensures
            params.width == 512,
            params.embedding_sigma.bits == 0x3FA6_A09E_667F_3BCD,
            params.weight_sigma.bits == 0x3F60_0000_0000_0000,
            params.learning_rate.bits == 0x3FB9_9999_9999_999A,
            params.max_steps == 2_000,
            params.tolerance.bits == 0x3DDB_7CDF_D9D7_BDBB,
            params.activation == Activation::Linear,
            params.regime == Regime::FrozenEmbedding,
    {
        Params::for_width(
            512,
            Double { bits: 0x3FA6_A09E_667F_3BCD },
            Double { bits: 0x3F60_0000_0000_0000 },
        )
    }
}

/// The model state: the tied embedding and the wide weight matrix.
#[derive(Clone, Debug, PartialEq)]
pub struct Parameters {
    embedding: Matrix<Double>,
    weight: Matrix<Double>,
}

impl Parameters {
    /// The embedding.
    pub closed spec fn embedding_part(self) -> Matrix<Double> {
        self.embedding
    }

    /// The weight.
    pub closed spec fn weight_part(self) -> Matrix<Double> {
        self.weight
    }

    /// The weight is square of the embedding's width.
    pub open spec fn wf(self) -> bool {
        &&& self.embedding_part().wf()
        &&& self.weight_part().wf()
        &&& self.weight_part().has_shape(
            self.embedding_part().width(),
            self.embedding_part().width(),
        )
    }

    /// Pairs an embedding with a weight matrix, or
    /// [`Error::WeightShapeMismatch`] where the weight is not square of the
    /// embedding's width.
    pub fn new(embedding: Matrix<Double>, weight: Matrix<Double>) -> (result: Result<
        Parameters,
        Error,
    >)
        requires
            embedding.wf(),
            weight.wf(),
        ensures
            weight.has_shape(embedding.width(), embedding.width()) ==> (result matches Ok(
                parameters,
            ) && parameters.wf() && parameters.embedding_part() == embedding
                && parameters.weight_part() == weight),
            !weight.has_shape(embedding.width(), embedding.width()) ==> result == Err::<
                Parameters,
                Error,
            >(
                Error::WeightShapeMismatch {
                    rows: weight@.len() as usize,
                    columns: weight.width() as usize,
                    width: embedding.width() as usize,
                },
            ),
    {
        let width: usize = embedding.ncols();
        let rows: usize = weight.nrows();
        let columns: usize = weight.ncols();
        if rows != width || columns != width {
            return Err(Error::WeightShapeMismatch { rows, columns, width });
        }
        Ok(Parameters { embedding, weight })
    }

    /// The tied embedding, one row per vertex.
    pub fn embedding(&self) -> (embedding: &Matrix<Double>)
        ensures
            *embedding == self.embedding_part(),
    {
        &self.embedding
    }

    /// The wide trainable matrix.
    pub fn weight(&self) -> (weight: &Matrix<Double>)
        ensures
            *weight == self.weight_part(),
    {
        &self.weight
    }

    /// The hidden width.
    pub fn width(&self) -> (width: usize)
        ensures
            width == self.embedding_part().width(),
    {
        self.embedding.ncols()
    }
}

/// The two states have the same embedding.
pub open spec fn same_embedding(before: Parameters, after: Parameters) -> bool {
    &&& after.embedding_part()@ == before.embedding_part()@
    &&& after.embedding_part().width() == before.embedding_part().width()
}

/// Under a frozen embedding the two states have the same embedding.
pub open spec fn frozen_embedding_kept(
    regime: Regime,
    before: Parameters,
    after: Parameters,
) -> bool {
    regime is FrozenEmbedding ==> same_embedding(before, after)
}

/// `after` is the state one step after `before`: it has the new weight, and the
/// new embedding where the regime trains it and there is one. Otherwise the
/// embedding stays.
pub open spec fn advanced(
    regime: Regime,
    before: Parameters,
    weight: Matrix<Double>,
    embedding: Option<Matrix<Double>>,
    after: Parameters,
) -> bool {
    &&& after.weight_part() == weight
    &&& if regime is LearnableEmbedding && embedding is Some {
        embedding == Some(after.embedding_part())
    } else {
        same_embedding(before, after)
    }
}

/// The state after a step: the new weight, and the new embedding where the
/// regime trains it and there is one. Under a frozen embedding, and where no
/// new embedding is given, the embedding stays.
pub fn advance(
    parameters: &Parameters,
    regime: Regime,
    weight: Matrix<Double>,
    embedding: Option<Matrix<Double>>,
) -> (next: Parameters)
    requires
        parameters.wf(),
        weight.wf(),
        weight.has_shape(parameters.weight_part()@.len(), parameters.weight_part().width()),
        embedding matches Some(moved) ==> moved.wf() && moved.has_shape(
            parameters.embedding_part()@.len(),
            parameters.embedding_part().width(),
        ),
    ensures
        next.wf(),
        advanced(regime, *parameters, weight, embedding, next),
{
    match embedding {
        Some(moved) => {
            if regime.trains_embedding() {
                Parameters { embedding: moved, weight }
            } else {
                Parameters { embedding: parameters.embedding.copied(), weight }
            }
        },
        None => Parameters { embedding: parameters.embedding.copied(), weight },
    }
}

/// How many of the first `top` vertices of a ranking are neighbours.
pub open spec fn neighbour_hits(neighbours: Seq<bool>, order: Seq<usize>, top: int) -> nat {
    count_true(Seq::new(order.len(), |i: int| neighbours[order[i] as int]), top)
}

/// The share of `u`'s neighbours among its top-ranked vertices, as many as it
/// has neighbours.
pub open spec fn top_share(
    adjacency: Seq<Seq<bool>>,
    scores: Seq<Seq<Double>>,
    u: int,
) -> Ratio {
    let degree = degree_of(adjacency, u);
    let row = scores[u].take(adjacency.len() as int);
    Ratio {
        numerator: neighbour_hits(adjacency[u], ranking(row), degree as int) as usize,
        denominator: degree as usize,
    }
}

/// Every neighbour of `u` ranks above every vertex that is none.
pub open spec fn neighbours_lead(
    adjacency: Seq<Seq<bool>>,
    scores: Seq<Seq<Double>>,
    u: int,
) -> bool {
    let row = scores[u].take(adjacency.len() as int);
    forall|v: int, w: int|
        0 <= v < adjacency.len() && 0 <= w < adjacency.len() && #[trigger] adjacency[u][v]
            && !#[trigger] adjacency[u][w] ==> ranks_before(row, v, w)
}

/// A ranking runs through every vertex once, so it meets every neighbour.
proof fn lemma_hits_total(neighbours: Seq<bool>, values: Seq<Double>, order: Seq<usize>)
    requires
        is_ranking(values, order),
        neighbours.len() == values.len(),
        values.len() <= usize::MAX,
    ensures
        neighbour_hits(neighbours, order, order.len() as int) == count_true(
            neighbours,
            neighbours.len() as int,
        ),
{
    let n = order.len() as int;
    let flags = Seq::new(order.len(), |i: int| neighbours[order[i] as int]);
    lemma_count_is_cardinality(flags, n);
    lemma_count_is_cardinality(neighbours, n);
    let places = true_indices(flags, n);
    let vertices = true_indices(neighbours, n);
    let at = |i: int| order[i] as int;
    assert forall|i: int, j: int|
        places.contains(i) && places.contains(j) && #[trigger] at(i) == #[trigger] at(
            j,
        ) implies i == j by {
        if i < j {
            assert(ranks_before(values, order[i] as int, order[j] as int));
        } else if j < i {
            assert(ranks_before(values, order[j] as int, order[i] as int));
        }
    }
    assert forall|v: int| vertices.contains(v) implies exists|i: int|
        places.contains(i) && #[trigger] at(i) == v by {
        assert(order.contains(v as usize));
        let i = choose|i: int| 0 <= i < order.len() && order[i] == v as usize;
        assert(at(i) == v);
        assert(places.contains(i));
    }
    assert forall|i: int| places.contains(i) implies vertices.contains(#[trigger] at(i)) by {
        assert(order[i] < values.len());
    }
    assert(places.map(at) =~= vertices);
    vstd::set_lib::lemma_map_size(places, vertices, at);
}

/// A vertex's share is at most one, and it is one exactly where the vertex
/// ranks all of its neighbours above every other vertex.
pub proof fn full_share_means_neighbours_lead(
    adjacency: Seq<Seq<bool>>,
    scores: Seq<Seq<Double>>,
    u: int,
)
    requires
        simple(adjacency),
        adjacency.len() <= usize::MAX,
        0 <= u < adjacency.len(),
        scores[u].len() >= adjacency.len(),
    ensures
        top_share(adjacency, scores, u).numerator <= top_share(adjacency, scores, u).denominator,
        top_share(adjacency, scores, u).numerator == top_share(adjacency, scores, u).denominator
            <==> neighbours_lead(adjacency, scores, u),
{
    let n = adjacency.len() as int;
    let row = scores[u].take(n);
    let order = ranking(row);
    ranking_exists(row);
    let degree = degree_of(adjacency, u) as int;
    let neighbours = adjacency[u];
    lemma_count_bound(neighbours, n);
    let flags = Seq::new(order.len(), |i: int| neighbours[order[i] as int]);
    lemma_hits_total(neighbours, row, order);
    lemma_count_bound(flags, degree);
    let hits = count_true(flags, degree);
    assert(top_share(adjacency, scores, u).numerator == hits);
    if hits == degree {
        lemma_full_prefix(flags, degree);
        lemma_rest_empty(flags, degree, n);
        assert forall|v: int, w: int|
            0 <= v < n && 0 <= w < n && #[trigger] adjacency[u][v]
                && !#[trigger] adjacency[u][w] implies ranks_before(row, v, w) by {
            assert(order.contains(v as usize));
            assert(order.contains(w as usize));
            let i = choose|i: int| 0 <= i < order.len() && order[i] == v as usize;
            let j = choose|j: int| 0 <= j < order.len() && order[j] == w as usize;
            assert(flags[i]);
            assert(!flags[j]);
            assert(i < j);
            assert(ranks_before(row, order[i] as int, order[j] as int));
        }
    }
    if neighbours_lead(adjacency, scores, u) {
        assert forall|i: int| 0 <= i < degree implies flags[i] by {
            if !flags[i] {
                assert forall|j: int| i <= j < n implies !flags[j] by {
                    if flags[j] {
                        assert(order[i] < n && order[j] < n);
                        assert(adjacency[u][order[j] as int]);
                        assert(!adjacency[u][order[i] as int]);
                        assert(ranks_before(row, order[j] as int, order[i] as int));
                        assert(ranks_before(row, order[i] as int, order[j] as int));
                    }
                }
                lemma_count_gap(flags, i, n);
                lemma_count_bound(flags, i);
            }
        }
        lemma_count_stretch(flags, 0, degree);
    }
}

proof fn lemma_full_prefix(flags: Seq<bool>, n: int)
    requires
        0 <= n,
        count_true(flags, n) == n,
    ensures
        forall|i: int| 0 <= i < n ==> flags[i],
    decreases n,
{
    if n > 0 {
        lemma_count_bound(flags, n - 1);
        lemma_full_prefix(flags, n - 1);
    }
}

proof fn lemma_rest_empty(flags: Seq<bool>, from: int, to: int)
    requires
        0 <= from <= to,
        count_true(flags, from) == count_true(flags, to),
    ensures
        forall|i: int| from <= i < to ==> !flags[i],
    decreases to - from,
{
    if from < to {
        crate::graph::lemma_count_grows(flags, from, to - 1);
        lemma_rest_empty(flags, from, to - 1);
    }
}

/// The associative score is full, every share being one, exactly where every
/// vertex ranks all of its neighbours above every other vertex.
pub proof fn full_score_means_all_neighbours_lead(
    adjacency: Seq<Seq<bool>>,
    scores: Seq<Seq<Double>>,
)
    requires
        simple(adjacency),
        adjacency.len() <= usize::MAX,
        scores.len() >= adjacency.len(),
        forall|u: int|
            0 <= u < adjacency.len() ==> (#[trigger] scores[u]).len() >= adjacency.len(),
    ensures
        (forall|u: int|
            0 <= u < adjacency.len() ==> (#[trigger] top_share(adjacency, scores, u)).numerator
                == top_share(adjacency, scores, u).denominator) <==> (forall|u: int|
            0 <= u < adjacency.len() ==> #[trigger] neighbours_lead(adjacency, scores, u)),
{
    assert forall|u: int| 0 <= u < adjacency.len() implies (top_share(
        adjacency,
        scores,
        u,
    ).numerator == top_share(adjacency, scores, u).denominator
        <==> #[trigger] neighbours_lead(adjacency, scores, u)) by {
        assert(scores[u].len() >= adjacency.len());
        full_share_means_neighbours_lead(adjacency, scores, u);
    }
    if forall|u: int|
        0 <= u < adjacency.len() ==> #[trigger] neighbours_lead(adjacency, scores, u) {
        assert forall|u: int| 0 <= u < adjacency.len() implies (#[trigger] top_share(
            adjacency,
            scores,
            u,
        )).numerator == top_share(adjacency, scores, u).denominator by {
            assert(neighbours_lead(adjacency, scores, u));
        }
    }
    if forall|u: int|
        0 <= u < adjacency.len() ==> (#[trigger] top_share(adjacency, scores, u)).numerator
            == top_share(adjacency, scores, u).denominator {
        assert forall|u: int| 0 <= u < adjacency.len() implies #[trigger] neighbours_lead(
            adjacency,
            scores,
            u,
        ) by {
            let share = top_share(adjacency, scores, u);
            assert(share.numerator == share.denominator);
        }
    }
}

/// The TinyNN system of one graph: the target distribution, the adjacency, the
/// degrees, and the vertex pairs at each of the first [`GEOMETRY_SHELLS`]
/// distances.
#[derive(Clone, Debug)]
pub struct TinyNn {
    order: usize,
    walk: Matrix<Ratio>,
    adjacency: Matrix<bool>,
    degrees: Vec<usize>,
    shells: Vec<Vec<(usize, usize)>>,
    beyond: Vec<(usize, usize)>,
}

impl TinyNn {
    /// The adjacency rows of the system's graph.
    pub closed spec fn adjacency_rows(self) -> Seq<Seq<bool>> {
        self.adjacency@
    }

    /// The rows of the target distribution.
    pub closed spec fn walk_rows(self) -> Seq<Seq<Ratio>> {
        self.walk@
    }

    /// The parts belong together.
    pub closed spec fn consistent(self) -> bool {
        &&& self.order == self.adjacency@.len()
        &&& self.walk.wf()
        &&& self.walk.has_shape(self.order as nat, self.order as nat)
        &&& self.adjacency.wf()
        &&& self.adjacency.has_shape(self.order as nat, self.order as nat)
        &&& self.degrees@.len() == self.order
        &&& forall|u: int|
            0 <= u < self.order ==> #[trigger] self.degrees@[u] == degree_of(self.adjacency@, u)
        &&& self.shells@.len() == GEOMETRY_SHELLS
        &&& forall|k: int|
            0 <= k < GEOMETRY_SHELLS ==> (#[trigger] self.shells@[k])@.len() > 0 && is_shell(
                self.adjacency@,
                (k + 1) as nat,
                self.shells@[k]@,
            )
        &&& self.beyond@.len() == 0
    }

    /// The invariant: a simple graph without isolated vertices and with vertex
    /// pairs at every shell's distance, and the parts that follow from it.
    pub open spec fn wf(self) -> bool {
        &&& self.consistent()
        &&& simple(self.adjacency_rows())
        &&& 1 <= self.adjacency_rows().len() <= usize::MAX
        &&& no_isolated(self.adjacency_rows())
        &&& self.walk_rows().len() == self.adjacency_rows().len()
        &&& forall|u: int, v: int|
            0 <= u < self.adjacency_rows().len() && 0 <= v < self.adjacency_rows().len()
                ==> #[trigger] self.walk_rows()[u][v] == walk_entry(self.adjacency_rows(), u, v)
    }

    /// Builds the system of `graph`. Refuses a graph with an isolated vertex,
    /// naming the first, and then one that lacks vertex pairs at some distance
    /// up to [`GEOMETRY_SHELLS`].
    pub fn new(graph: &Graph) -> (result: Result<TinyNn, Error>)
        requires
            graph.wf(),
        ensures
            !no_isolated(graph@) ==> (result matches Err(error) && error matches Error::IsolatedVertex {
                vertex,
            } && first_isolated(graph@, vertex as int)),
            no_isolated(graph@) && leading_populated(graph@, GEOMETRY_SHELLS as nat)
                != GEOMETRY_SHELLS ==> result == Err::<TinyNn, Error>(
                Error::InsufficientDistanceShells {
                    available: leading_populated(graph@, GEOMETRY_SHELLS as nat) as usize,
                },
            ),
            no_isolated(graph@) && leading_populated(graph@, GEOMETRY_SHELLS as nat)
                == GEOMETRY_SHELLS ==> (result matches Ok(system) && system.wf()
                && system.adjacency_rows() == graph@),
    {
        let walk = match transition(graph) {
            Ok(walk) => walk,
            Err(error) => {
                return Err(error);
            },
        };
        let order: usize = graph.order();
        let source = graph.adjacency();
        let adjacency = source.copied();
        let shells = match distance_shells(source, order) {
            Ok(shells) => shells,
            Err(error) => {
                return Err(error);
            },
        };
        let given = graph.degrees();
        let mut degrees: Vec<usize> = Vec::new();
        let mut u: usize = 0;
        while u < order
            invariant
                graph.wf(),
                order == graph@.len(),
                given@ == graph.degree_seq(),
                u <= order,
                degrees@.len() == u,
                forall|v: int| 0 <= v < u ==> #[trigger] degrees@[v] == given@[v],
            decreases order - u,
        {
            degrees.push(given[u]);
            u += 1;
        }
        let beyond: Vec<(usize, usize)> = Vec::new();
        let system = TinyNn { order, walk, adjacency, degrees, shells, beyond };
        assert forall|v: int| 0 <= v < order implies #[trigger] degrees@[v] == degree_of(
            graph@,
            v,
        ) by {
            assert(given@[v] == degree_of(graph@, v));
        }
        Ok(system)
    }

    /// The vertex count, which is the row count of a valid embedding.
    pub fn order(&self) -> (order: usize)
        requires
            self.wf(),
        ensures
            order == self.adjacency_rows().len(),
    {
        self.order
    }

    /// The target distribution: row u is uniform over the neighbours of u.
    pub fn walk(&self) -> (walk: &Matrix<Ratio>)
        requires
            self.wf(),
        ensures
            walk@ == self.walk_rows(),
            walk.wf(),
            walk.has_shape(self.adjacency_rows().len(), self.adjacency_rows().len()),
    {
        &self.walk
    }

    /// The unordered vertex pairs at graph distance `distance`, for distances
    /// from 1 to [`GEOMETRY_SHELLS`]; none outside that range.
    pub fn shell(&self, distance: usize) -> (pairs: &[(usize, usize)])
        requires
            self.wf(),
        ensures
            1 <= distance <= GEOMETRY_SHELLS ==> pairs@.len() > 0 && is_shell(
                self.adjacency_rows(),
                distance as nat,
                pairs@,
            ),
            !(1 <= distance <= GEOMETRY_SHELLS) ==> pairs@.len() == 0,
    {
        if 1 <= distance && distance <= GEOMETRY_SHELLS {
            assert(self.shells@[distance - 1]@.len() > 0);
            self.shells[distance - 1].as_slice()
        } else {
            self.beyond.as_slice()
        }
    }

    /// Draws the embedding from `seed` and the weight from the second seed of
    /// it. Refuses parameters that [`Params::validate`] refuses, and then an
    /// embedding or a weight whose entry count overflows.
    pub fn initial_parameters(&self, params: &Params, seed: u64) -> (result: Result<
        (Matrix<Draw>, Matrix<Draw>),
        Error,
    >)
        requires
            self.wf(),
        ensures
            match params.fault() {
                Some(error) => result == Err::<(Matrix<Draw>, Matrix<Draw>), Error>(error),
                None => if self.adjacency_rows().len() * params.width > usize::MAX {
                    result == Err::<(Matrix<Draw>, Matrix<Draw>), Error>(
                        Error::MatrixTooLarge {
                            rows: self.adjacency_rows().len() as usize,
                            columns: params.width,
                        },
                    )
                } else if params.width * params.width > usize::MAX {
                    result == Err::<(Matrix<Draw>, Matrix<Draw>), Error>(
                        Error::MatrixTooLarge { rows: params.width, columns: params.width },
                    )
                } else {
                    result matches Ok(draws) && is_seeded_draw(
                        draws.0,
                        self.adjacency_rows().len(),
                        params.width as nat,
                        seed,
                    ) && is_seeded_draw(
                        draws.1,
                        params.width as nat,
                        params.width as nat,
                        second_seed(seed as int) as u64,
                    )
                },
            },
    {
        if let Err(error) = params.validate() {
            return Err(error);
        }
        let embedding = match gaussian_matrix(self.order, params.width, seed) {
            Ok(draws) => draws,
            Err(error) => {
                return Err(error);
            },
        };
        let weight = match gaussian_matrix(
            params.width,
            params.width,
            second_factor_seed(seed),
        ) {
            Ok(draws) => draws,
            Err(error) => {
                return Err(error);
            },
        };
        Ok((embedding, weight))
    }

    /// The associative metric before averaging: for each vertex, the share of
    /// its neighbours that appear among its top-ranked next vertices, as many
    /// as it has neighbours. Ties rank by ascending vertex index.
    pub fn associative_score(&self, probabilities: &Matrix<Double>) -> (shares: Vec<Ratio>)
        requires
            self.wf(),
            probabilities.wf(),
            probabilities@.len() >= self.adjacency_rows().len(),
            probabilities.width() >= self.adjacency_rows().len(),
        ensures
            shares@.len() == self.adjacency_rows().len(),
            forall|u: int|
                0 <= u < shares@.len() ==> #[trigger] shares@[u] == top_share(
                    self.adjacency_rows(),
                    probabilities@,
                    u,
                ),
    {
        let mut shares: Vec<Ratio> = Vec::new();
        let mut u: usize = 0;
        while u < self.order
            invariant
                self.wf(),
                probabilities.wf(),
                probabilities@.len() >= self.adjacency_rows().len(),
                probabilities.width() >= self.adjacency_rows().len(),
                self.order == self.adjacency_rows().len(),
                u <= self.order,
                shares@.len() == u,
                forall|k: int|
                    0 <= k < u ==> #[trigger] shares@[k] == top_share(
                        self.adjacency_rows(),
                        probabilities@,
                        k,
                    ),
            decreases self.order - u,
        {
            shares.push(self.top_share_of(probabilities.row(u), u));
            u += 1;
        }
        shares
    }

    fn top_share_of(&self, scores: &[Double], u: usize) -> (share: Ratio)
        requires
            self.wf(),
            scores@.len() >= self.adjacency_rows().len(),
            u < self.adjacency_rows().len(),
        ensures
            forall|all: Seq<Seq<Double>>|
                all[u as int] == scores@ ==> share == #[trigger] top_share(
                    self.adjacency_rows(),
                    all,
                    u as int,
                ),
    {
        let n: usize = self.order;
        let ghost rows = self.adjacency_rows();
        let mut row: Vec<Double> = Vec::new();
        let mut v: usize = 0;
        while v < n
            invariant
                n <= scores@.len(),
                v <= n,
                row@ == scores@.take(v as int),
            decreases n - v,
        {
            row.push(scores[v]);
            assert(row@ =~= scores@.take(v + 1));
            v += 1;
        }
        let ranked: Vec<usize> = descending_order(row.as_slice());
        let degree: usize = self.degrees[u];
        let ghost flags = Seq::new(ranked@.len(), |i: int| rows[u as int][ranked@[i] as int]);
        proof {
            lemma_count_bound(rows[u as int], n as int);
        }
        let mut hits: usize = 0;
        let mut i: usize = 0;
        while i < degree
            invariant
                self.wf(),
                rows == self.adjacency_rows(),
                n == rows.len(),
                u < n,
                degree <= n,
                i <= degree,
                hits <= i,
                is_ranking(row@, ranked@),
                row@.len() == n,
                flags == Seq::new(
                    ranked@.len(),
                    |i: int| rows[u as int][ranked@[i] as int],
                ),
                hits == count_true(flags, i as int),
            decreases degree - i,
        {
            if *self.adjacency.at(u, ranked[i]) {
                hits += 1;
            }
            i += 1;
        }
        Ratio { numerator: hits, denominator: degree }
    }

    /// Rejects a parameter set whose embedding has `rows` rows where that is
    /// not the vertex count.
    pub fn check_order(&self, rows: usize) -> (result: Result<(), Error>)
        requires
            self.wf(),
        ensures
            rows == self.adjacency_rows().len() ==> result is Ok,
            rows != self.adjacency_rows().len() ==> result == Err::<(), Error>(
                Error::EmbeddingOrderMismatch {
                    rows,
                    order: self.adjacency_rows().len() as usize,
                },
            ),
    {
        if rows == self.order {
            Ok(())
        } else {
            Err(Error::EmbeddingOrderMismatch { rows, order: self.order })
        }
    }
}

/// What a run starts from.
#[derive(Clone, Debug)]
pub struct Start {
    /// The system of the run's graph.
    pub system: TinyNn,
    /// The draws behind the initial embedding.
    pub embedding: Matrix<Draw>,
    /// The draws behind the initial weight.
    pub weight: Matrix<Draw>,
}

/// Prepares a run. Refuses parameters that [`Params::validate`] refuses, then
/// a graph that [`TinyNn::new`] refuses, then an embedding or a weight whose
/// entry count overflows.
pub fn prepare(graph: &Graph, params: &Params, seed: u64) -> (result: Result<Start, Error>)
    requires
        graph.wf(),
    ensures
        match params.fault() {
            Some(error) => result == Err::<Start, Error>(error),
            None => if !no_isolated(graph@) {
                result matches Err(error) && error matches Error::IsolatedVertex { vertex }
                    && first_isolated(graph@, vertex as int)
            } else if leading_populated(graph@, GEOMETRY_SHELLS as nat) != GEOMETRY_SHELLS {
                result == Err::<Start, Error>(
                    Error::InsufficientDistanceShells {
                        available: leading_populated(graph@, GEOMETRY_SHELLS as nat) as usize,
                    },
                )
            } else if graph@.len() * params.width > usize::MAX {
                result == Err::<Start, Error>(
                    Error::MatrixTooLarge { rows: graph@.len() as usize, columns: params.width },
                )
            } else if params.width * params.width > usize::MAX {
                result == Err::<Start, Error>(
                    Error::MatrixTooLarge { rows: params.width, columns: params.width },
                )
            } else {
                result matches Ok(start) && start.system.wf() && start.system.adjacency_rows()
                    == graph@ && is_seeded_draw(
                    start.embedding,
                    graph@.len(),
                    params.width as nat,
                    seed,
                ) && is_seeded_draw(
                    start.weight,
                    params.width as nat,
                    params.width as nat,
                    second_seed(seed as int) as u64,
                )
            },
        },
{
    if let Err(error) = params.validate() {
        return Err(error);
    }
    let system = match TinyNn::new(graph) {
        Ok(system) => system,
        Err(error) => {
            return Err(error);
        },
    };
    match system.initial_parameters(params, seed) {
        Ok((embedding, weight)) => Ok(Start { system, embedding, weight }),
        Err(error) => Err(error),
    }
}

/// Some mean of the profile is a NaN.
pub open spec fn carries_nan(means: Seq<Double>) -> bool {
    exists|i: int| 0 <= i < means.len() && (#[trigger] means[i]).nan()
}

/// The geometry margin of a shell-mean profile, given the difference of its
/// last two means: the deepest shell's distance from zero, capped by its drop
/// below the shell above it. A NaN where the profile is shorter than two
/// entries or carries a NaN, or the difference is one.
pub open spec fn margin_of(shell_means: Seq<Double>, separation: Double) -> Double {
    if shell_means.len() < 2 || carries_nan(shell_means) || separation.nan() {
        Double { bits: 0x7FF8_0000_0000_0000 }
    } else if shell_means.last().absolute().greater(separation) {
        separation
    } else {
        shell_means.last().absolute()
    }
}

/// The geometry margin of a shell-mean profile, given `separation`, the
/// difference of its last two means. A profile that is shorter than two entries
/// or carries a NaN scores a NaN, so that it fails every threshold.
pub fn shell_margin(shell_means: &[Double], separation: Double) -> (margin: Double)
    ensures
        margin == margin_of(shell_means@, separation),
{
    let count: usize = shell_means.len();
    if count < 2 || separation.is_nan() {
        return Double::from_bits(0x7FF8_0000_0000_0000);
    }
    let mut i: usize = 0;
    while i < count
        invariant
            count == shell_means@.len(),
            i <= count,
            forall|k: int| 0 <= k < i ==> !(#[trigger] shell_means@[k]).nan(),
        decreases count - i,
    {
        if shell_means[i].is_nan() {
            assert(carries_nan(shell_means@));
            return Double::from_bits(0x7FF8_0000_0000_0000);
        }
        i += 1;
    }
    let reach: Double = shell_means[count - 1].abs();
    if reach.exceeds(separation) {
        separation
    } else {
        reach
    }
}

/// A profile that carries a NaN scores a NaN, which reaches no threshold, so a
/// diverged run reports no geometry; and any other margin is at most the
/// deepest mean's magnitude and at most the separation. A deepest mean of zero,
/// which is the adjacency rows' one, never scores above zero.
pub proof fn margins_are_capped(shell_means: Seq<Double>, separation: Double, threshold: Double)
    ensures
        shell_means.len() < 2 || carries_nan(shell_means) || separation.nan() ==> !margin_of(
            shell_means,
            separation,
        ).greater_or_same(threshold),
        shell_means.len() >= 2 && !carries_nan(shell_means) && !separation.nan() ==> {
            let margin = margin_of(shell_means, separation);
            &&& !margin.nan()
            &&& margin.rank() <= shell_means.last().magnitude()
            &&& margin.rank() <= separation.rank()
            &&& margin.rank() == shell_means.last().magnitude() || margin == separation
            &&& shell_means.last().magnitude() == 0 && separation.rank() >= 0
                ==> margin.magnitude() == 0
        },
{
    if shell_means.len() >= 2 && !carries_nan(shell_means) {
        assert(!shell_means[shell_means.len() - 1].nan());
    }
}

/// One recorded step: the state after `step` applied updates, together with the
/// relative size of the update pending from it.
#[derive(Clone, Debug, PartialEq)]
pub struct StepRecord {
    step: usize,
    loss: Double,
    associative_score: Double,
    geometry_margin: Double,
    relative_update: Double,
    shell_means: Vec<Double>,
}

impl Record for StepRecord {
    closed spec fn step_number(&self) -> nat {
        self.step as nat
    }

    closed spec fn pending_update(&self) -> Double {
        self.relative_update
    }

    fn step(&self) -> (step: usize) {
        self.step
    }

    fn relative_update(&self) -> (update: Double) {
        self.relative_update
    }
}

impl StepRecord {
    /// The loss's value.
    pub closed spec fn loss_value(self) -> Double {
        self.loss
    }

    /// The associative score's value.
    pub closed spec fn score_value(self) -> Double {
        self.associative_score
    }

    /// The geometry margin's value.
    pub closed spec fn margin_value(self) -> Double {
        self.geometry_margin
    }

    /// The shell means, by distance from 1 on.
    pub closed spec fn mean_values(self) -> Seq<Double> {
        self.shell_means@
    }

    /// Pairs a step number with its measurements. The geometry margin is that
    /// of the shell means, given `separation`, the difference of the last two.
    pub fn new(
        step: usize,
        loss: Double,
        associative_score: Double,
        relative_update: Double,
        shell_means: Vec<Double>,
        separation: Double,
    ) -> (record: StepRecord)
        ensures
            record.step_number() == step,
            record.loss_value() == loss,
            record.score_value() == associative_score,
            record.margin_value() == margin_of(shell_means@, separation),
            record.pending_update() == relative_update,
            record.mean_values() == shell_means@,
    {
        let geometry_margin: Double = shell_margin(shell_means.as_slice(), separation);
        StepRecord { step, loss, associative_score, geometry_margin, relative_update, shell_means }
    }

    /// The number of updates applied before this state.
    pub fn step(&self) -> (step: usize)
        ensures
            step == self.step_number(),
    {
        self.step
    }

    /// The cross-entropy at this state.
    pub fn loss(&self) -> (value: Double)
        ensures
            value == self.loss_value(),
    {
        self.loss
    }

    /// The associative metric at this state.
    pub fn associative_score(&self) -> (value: Double)
        ensures
            value == self.score_value(),
    {
        self.associative_score
    }

    /// The geometry margin at this state.
    pub fn geometry_margin(&self) -> (value: Double)
        ensures
            value == self.margin_value(),
    {
        self.geometry_margin
    }

    /// The relative size of the update pending from this state.
    pub fn relative_update(&self) -> (value: Double)
        ensures
            value == self.pending_update(),
    {
        self.relative_update
    }

    /// The mean cosine similarity at each distance from 1 on.
    pub fn shell_means(&self) -> (values: &[Double])
        ensures
            values@ == self.mean_values(),
    {
        self.shell_means.as_slice()
    }
}

/// The associative scores of a history.
pub open spec fn score_series(history: Seq<StepRecord>) -> Seq<Double> {
    Seq::new(history.len(), |k: int| history[k].score_value())
}

/// The geometry margins of a history.
pub open spec fn margin_series(history: Seq<StepRecord>) -> Seq<Double> {
    Seq::new(history.len(), |k: int| history[k].margin_value())
}

/// `first` is the first index whose value reaches the threshold, or `None`
/// where none does.
pub open spec fn is_first_reaching(
    values: Seq<Double>,
    threshold: Double,
    first: Option<usize>,
) -> bool {
    match first {
        Some(step) => step < values.len() && values[step as int].greater_or_same(threshold)
            && forall|k: int|
            0 <= k < step ==> !(#[trigger] values[k]).greater_or_same(threshold),
        None => forall|k: int|
            0 <= k < values.len() ==> !(#[trigger] values[k]).greater_or_same(threshold),
    }
}

/// The first index whose value reaches the threshold.
fn first_reaching(values: &[Double], threshold: Double) -> (first: Option<usize>)
    ensures
        is_first_reaching(values@, threshold, first),
{
    let mut k: usize = 0;
    while k < values.len()
        invariant
            k <= values@.len(),
            forall|i: int| 0 <= i < k ==> !(#[trigger] values@[i]).greater_or_same(threshold),
        decreases values@.len() - k,
    {
        if values[k].reaches(threshold) {
            return Some(k);
        }
        k += 1;
    }
    None
}

/// A lower threshold is reached no later than a higher one.
pub proof fn lower_thresholds_are_reached_earlier(
    values: Seq<Double>,
    low: Double,
    high: Double,
    early: Option<usize>,
    late: Option<usize>,
)
    requires
        high.greater_or_same(low),
        is_first_reaching(values, low, early),
        is_first_reaching(values, high, late),
    ensures
        late matches Some(step) ==> early matches Some(earlier) && earlier <= step,
{
    if let Some(step) = late {
        assert(values[step as int].greater_or_same(low));
    }
}

/// The result of a run.
#[derive(Clone, Debug)]
pub struct Run {
    parameters: Parameters,
    records: Vec<StepRecord>,
    outcome: Outcome,
    steps: usize,
}

impl Run {
    /// The records, in the order of the steps.
    pub closed spec fn history(self) -> Seq<StepRecord> {
        self.records@
    }

    /// The number of applied updates.
    pub closed spec fn applied(self) -> nat {
        self.steps as nat
    }

    /// Why the step loop ended.
    pub closed spec fn ending(self) -> Outcome {
        self.outcome
    }

    /// The final parameters.
    pub closed spec fn final_parameters(self) -> Parameters {
        self.parameters
    }

    /// One record per state, numbered from 0.
    pub open spec fn wf(self) -> bool {
        self.history().len() == self.applied() + 1 && numbered_records(self.history())
    }

    /// The result of a run, or `None` where it has not ended. The final
    /// parameters are the state that the run measured last.
    pub fn new(descent: Descent) -> (made: Option<Run>)
        requires
            descent.wf(),
        ensures
            made is Some <==> descent.log().progress().waits_for() is Ended,
            made matches Some(run) ==> {
                let progress = descent.log().progress();
                &&& run.wf()
                &&& run.final_parameters() == progress.current()
                &&& run.final_parameters() == progress.measured().last()
                &&& frozen_embedding_kept(descent.trains(), descent.initial(), run.final_parameters())
                &&& run.history() == progress.history()
                &&& run.applied() == progress.applied()
                &&& progress.waits_for() == Phase::Ended(run.ending())
                &&& run_ended(
                    run.history(),
                    run.applied(),
                    run.ending(),
                    progress.budget(),
                    progress.bound(),
                )
            },
    {
        let steps: usize = descent.steps();
        match descent.phase() {
            Phase::Ended(outcome) => {
                let (parameters, records) = descent.journal.into_progress().into_parts();
                Some(Run { parameters, records, outcome, steps })
            },
            _ => None,
        }
    }

    /// The final parameters.
    pub fn parameters(&self) -> (parameters: &Parameters)
        ensures
            *parameters == self.final_parameters(),
    {
        &self.parameters
    }

    /// The recorded steps, in the order of their lines.
    pub fn records(&self) -> (records: &[StepRecord])
        ensures
            records@ == self.history(),
    {
        self.records.as_slice()
    }

    /// The last recorded step.
    pub fn last(&self) -> (record: Option<&StepRecord>)
        ensures
            record is Some <==> self.history().len() > 0,
            record matches Some(last) ==> *last == self.history().last(),
    {
        self.records.as_slice().last()
    }

    /// The number of applied updates.
    pub fn steps(&self) -> (steps: usize)
        ensures
            steps == self.applied(),
    {
        self.steps
    }

    /// Why the step loop ended.
    pub fn outcome(&self) -> (outcome: Outcome)
        ensures
            outcome == self.ending(),
    {
        self.outcome
    }

    fn scores(&self) -> (values: Vec<Double>)
        ensures
            values@ == score_series(self.history()),
    {
        let mut values: Vec<Double> = Vec::new();
        let mut k: usize = 0;
        while k < self.records.len()
            invariant
                k <= self.records@.len(),
                values@.len() == k,
                forall|i: int|
                    0 <= i < k ==> #[trigger] values@[i] == self.records@[i].score_value(),
            decreases self.records@.len() - k,
        {
            values.push(self.records[k].associative_score());
            k += 1;
        }
        assert(values@ =~= score_series(self.history()));
        values
    }

    fn margins(&self) -> (values: Vec<Double>)
        ensures
            values@ == margin_series(self.history()),
    {
        let mut values: Vec<Double> = Vec::new();
        let mut k: usize = 0;
        while k < self.records.len()
            invariant
                k <= self.records@.len(),
                values@.len() == k,
                forall|i: int|
                    0 <= i < k ==> #[trigger] values@[i] == self.records@[i].margin_value(),
            decreases self.records@.len() - k,
        {
            values.push(self.records[k].geometry_margin());
            k += 1;
        }
        assert(values@ =~= margin_series(self.history()));
        values
    }

    /// The step of the record at an index that a search found.
    fn step_at(&self, found: Option<usize>) -> (step: Option<usize>)
        requires
            self.wf(),
            found matches Some(index) ==> index < self.history().len(),
        ensures
            step == found,
    {
        match found {
            Some(index) => {
                assert(self.history()[index as int].step_number() == index);
                Some(self.records[index].step())
            },
            None => None,
        }
    }

    /// The first step whose associative score is within
    /// [`FULL_MEMORIZATION_SLACK`] of 1.
    pub fn associative_step(&self) -> (step: Option<usize>)
        requires
            self.wf(),
        ensures
            is_first_reaching(
                score_series(self.history()),
                Double { bits: FULL_MEMORIZATION },
                step,
            ),
    {
        let values: Vec<Double> = self.scores();
        self.step_at(first_reaching(values.as_slice(), Double::from_bits(FULL_MEMORIZATION)))
    }

    /// The largest associative score over the recorded steps.
    pub fn peak_associative_score(&self) -> (largest: Double)
        ensures
            largest == peak_of(score_series(self.history())),
    {
        let values: Vec<Double> = self.scores();
        peak(values.as_slice())
    }

    /// The first step whose geometry margin reaches `threshold`.
    pub fn geometry_step(&self, threshold: Double) -> (step: Option<usize>)
        requires
            self.wf(),
        ensures
            is_first_reaching(margin_series(self.history()), threshold, step),
    {
        let values: Vec<Double> = self.margins();
        self.step_at(first_reaching(values.as_slice(), threshold))
    }

    /// The largest geometry margin over the recorded steps.
    pub fn peak_geometry_margin(&self) -> (largest: Double)
        ensures
            largest == peak_of(margin_series(self.history())),
    {
        let values: Vec<Double> = self.margins();
        peak(values.as_slice())
    }
}

/// A run reaches a threshold at some step exactly where its peak does.
pub proof fn peaks_witness_reached_thresholds(
    values: Seq<Double>,
    threshold: Double,
    first: Option<usize>,
)
    requires
        is_first_reaching(values, threshold, first),
        values.len() <= usize::MAX,
        threshold.bits != 0xFFF0_0000_0000_0000,
    ensures
        first is Some <==> peak_of(values).greater_or_same(threshold),
{
    lemma_peak_bounds(values);
    if let Some(step) = first {
        assert(values[step as int].rank() <= peak_of(values).rank());
    } else if peak_of(values).greater_or_same(threshold) {
        assert(values.contains(peak_of(values)));
        let k = choose|k: int| 0 <= k < values.len() && values[k] == peak_of(values);
        assert(!values[k].greater_or_same(threshold));
    }
}

proof fn lemma_peak_bounds(values: Seq<Double>)
    ensures
        !peak_of(values).nan(),
        peak_of(values).bits == 0xFFF0_0000_0000_0000 || values.contains(peak_of(values)),
        forall|k: int|
            0 <= k < values.len() && !(#[trigger] values[k]).nan() ==> values[k].rank()
                <= peak_of(values).rank(),
    decreases values.len(),
{
    if values.len() > 0 {
        let before = values.drop_last();
        lemma_peak_bounds(before);
        if values.last().greater(peak_of(before)) {
            assert(values[values.len() - 1] == values.last());
        } else if before.contains(peak_of(before)) {
            let k = choose|k: int| 0 <= k < before.len() && before[k] == peak_of(before);
            assert(values[k] == peak_of(before));
        }
        assert forall|k: int|
            0 <= k < values.len() && !(#[trigger] values[k]).nan() implies values[k].rank()
            <= peak_of(values).rank() by {
            if k < before.len() {
                assert(before[k] == values[k]);
            }
        }
    }
}

/// The files that a run writes, by path.
#[derive(Clone, Copy, Debug)]
pub struct Outputs<'a> {
    /// Per-step instrumentation.
    pub history: &'a Path,
    /// The node-node cosine-similarity matrix of the final embedding.
    pub cosines: &'a Path,
}

/// The cells of the history header after `step`.
pub open spec fn header_cells() -> Seq<Seq<char>> {
    seq!["loss"@, "associative_score"@, "geometry_margin"@, "relative_update"@] + numbered(
        "shell_mean_"@,
        1,
        GEOMETRY_SHELLS as nat,
    )
}

proof fn lemma_four_cells(a: Seq<char>, b: Seq<char>, c: Seq<char>, d: Seq<char>)
    ensures
        comma_led(seq![a, b, c, d]) == Seq::<char>::empty().push(',') + a.push(',') + b.push(',')
            + c.push(',') + d,
{
    reveal_with_fuel(comma_led, 5);
    assert(seq![a, b, c, d].drop_last() =~= seq![a, b, c]);
    assert(seq![a, b, c].drop_last() =~= seq![a, b]);
    assert(seq![a, b].drop_last() =~= seq![a]);
    assert(seq![a].drop_last() =~= Seq::empty());
    assert(comma_led(seq![a, b, c, d]) =~= Seq::<char>::empty().push(',') + a.push(',') + b.push(
        ',',
    ) + c.push(',') + d);
}

/// Appends the history header: the fixed columns followed by one
/// `shell_mean_k` per distance shell.
pub fn write_header(sink: &mut String)
    ensures
        final(sink)@ == old(sink)@ + line("step"@, header_cells()),
{
    sink.append("step");
    push_cell(sink, "loss");
    push_cell(sink, "associative_score");
    push_cell(sink, "geometry_margin");
    push_cell(sink, "relative_update");
    push_numbered(sink, "shell_mean_", 1, GEOMETRY_SHELLS);
    push_newline(sink);
    proof {
        let fixed = seq!["loss"@, "associative_score"@, "geometry_margin"@, "relative_update"@];
        lemma_four_cells(fixed[0], fixed[1], fixed[2], fixed[3]);
        comma_led_splits(fixed, numbered("shell_mean_"@, 1, GEOMETRY_SHELLS as nat));
        assert(sink@ =~= old(sink)@ + line("step"@, header_cells()));
    }
}

/// The texts of a record's measurements.
#[derive(Clone, Debug)]
pub struct RecordCells {
    pub loss: String,
    pub associative_score: String,
    pub geometry_margin: String,
    pub relative_update: String,
    pub shell_means: Vec<String>,
}

impl RecordCells {
    /// There is one text per value of the record.
    pub open spec fn fits(self, record: StepRecord) -> bool {
        self.shell_means@.len() == record.mean_values().len()
    }

    /// The cells of the record's line after the step number.
    pub open spec fn cells(self) -> Seq<Seq<char>> {
        seq![
            self.loss@,
            self.associative_score@,
            self.geometry_margin@,
            self.relative_update@,
        ] + texts(self.shell_means@)
    }
}

/// Appends a record's history line: its step number and its measurements in the
/// header's order, one cell per value.
pub fn write_row(sink: &mut String, record: &StepRecord, cells: &RecordCells)
    requires
        cells.fits(*record),
    ensures
        final(sink)@ == old(sink)@ + line(decimal(record.step_number()), cells.cells()),
{
    push_decimal(sink, record.step);
    push_cell(sink, cells.loss.as_str());
    push_cell(sink, cells.associative_score.as_str());
    push_cell(sink, cells.geometry_margin.as_str());
    push_cell(sink, cells.relative_update.as_str());
    push_cells(sink, cells.shell_means.as_slice());
    push_newline(sink);
    proof {
        let fixed = seq![
            cells.loss@,
            cells.associative_score@,
            cells.geometry_margin@,
            cells.relative_update@,
        ];
        lemma_four_cells(fixed[0], fixed[1], fixed[2], fixed[3]);
        comma_led_splits(fixed, texts(cells.shell_means@));
        assert(sink@ =~= old(sink)@ + line(decimal(record.step_number()), cells.cells()));
    }
}

impl Logged for StepRecord {
    type Cells = RecordCells;

    open spec fn header(order: nat) -> Seq<Seq<char>> {
        header_cells()
    }

    open spec fn row(cells: RecordCells) -> Seq<Seq<char>> {
        cells.cells()
    }

    open spec fn complete(&self, cells: RecordCells, order: nat) -> bool {
        &&& cells.fits(*self)
        &&& self.mean_values().len() == GEOMETRY_SHELLS
    }

    proof fn complete_rows_match_the_header(&self, cells: RecordCells, order: nat) {
    }

    fn log_header(sink: &mut String, order: usize) {
        write_header(sink);
    }

    fn log_row(&self, sink: &mut String, cells: &RecordCells, order: usize) {
        write_row(sink, self, cells);
    }
}

/// A run in progress: the journal of its states and records, and its regime.
pub struct Descent {
    journal: Journal<Parameters, StepRecord>,
    regime: Regime,
    start: Ghost<Parameters>,
}

impl Descent {
    /// The journal of the run.
    pub closed spec fn log(self) -> Journal<Parameters, StepRecord> {
        self.journal
    }

    /// The regime of the run.
    pub closed spec fn trains(self) -> Regime {
        self.regime
    }

    /// The state that the run started from.
    pub closed spec fn initial(self) -> Parameters {
        self.start@
    }

    /// The invariant: the journal's, states of the initial shape, and, under a
    /// frozen embedding, the initial embedding in every state.
    pub open spec fn wf(self) -> bool {
        &&& self.log().wf()
        &&& self.initial().wf()
        &&& self.log().progress().current().wf()
        &&& self.log().progress().current().embedding_part().has_shape(
            self.initial().embedding_part()@.len(),
            self.initial().embedding_part().width(),
        )
        &&& frozen_embedding_kept(self.trains(), self.initial(), self.log().progress().current())
        &&& forall|k: int|
            0 <= k < self.log().progress().measured().len() ==> frozen_embedding_kept(
                self.trains(),
                self.initial(),
                #[trigger] self.log().progress().measured()[k],
            )
    }

    /// A run at its initial state, with the header written.
    pub fn new(params: &Params, parameters: Parameters) -> (made: Descent)
        requires
            parameters.wf(),
        ensures
            made.wf(),
            made.trains() == params.regime,
            made.initial() == parameters,
            made.log().progress().waits_for() == Phase::Measure,
            made.log().progress().current() == parameters,
            made.log().progress().history().len() == 0,
            made.log().progress().applied() == 0,
            made.log().progress().budget() == params.max_steps,
            made.log().progress().bound() == params.tolerance,
            made.log().handed_text().len() == 0,
            made.log().pending_text() == line("step"@, header_cells()),
    {
        let ghost initial = parameters;
        Descent {
            journal: Journal::new(params.max_steps, params.tolerance, 0, parameters),
            regime: params.regime,
            start: Ghost(initial),
        }
    }

    /// The state that the run is at.
    pub fn state(&self) -> (state: &Parameters)
        ensures
            *state == self.log().progress().current(),
    {
        self.journal.state()
    }

    /// The number of applied updates.
    pub fn steps(&self) -> (steps: usize)
        ensures
            steps == self.log().progress().applied(),
    {
        self.journal.steps()
    }

    /// What the run waits for.
    pub fn phase(&self) -> (phase: Phase)
        ensures
            phase == self.log().progress().waits_for(),
    {
        self.journal.phase()
    }

    /// Takes the record of the current state and writes its line.
    pub fn record(&mut self, record: StepRecord, cells: &RecordCells)
        requires
            old(self).wf(),
            old(self).log().progress().waits_for() == Phase::Measure,
            record.step_number() == old(self).log().progress().applied(),
            cells.fits(record),
            record.mean_values().len() == GEOMETRY_SHELLS,
        ensures
            final(self).wf(),
            final(self).trains() == old(self).trains(),
            final(self).initial() == old(self).initial(),
            recorded(old(self).log().progress(), record, final(self).log().progress()),
            final(self).log().lines() == old(self).log().lines().push(
                (decimal(record.step_number()), cells.cells()),
            ),
            final(self).log().handed_text() == old(self).log().handed_text(),
            final(self).log().pending_text() == old(self).log().pending_text() + line(
                decimal(record.step_number()),
                cells.cells(),
            ),
    {
        self.journal.record(record, cells);
    }

    /// Takes the answer of a poll and the blocks after the pending update. On
    /// `stop` the run ends at the state that was measured last; otherwise it
    /// moves on as [`advance`] does.
    pub fn polled(&mut self, stop: bool, weight: Matrix<Double>, embedding: Option<Matrix<Double>>)
        requires
            old(self).wf(),
            old(self).log().progress().waits_for() == Phase::Poll,
            weight.wf(),
            weight.has_shape(
                old(self).initial().weight_part()@.len(),
                old(self).initial().weight_part().width(),
            ),
            embedding matches Some(moved) ==> moved.wf() && moved.has_shape(
                old(self).initial().embedding_part()@.len(),
                old(self).initial().embedding_part().width(),
            ),
        ensures
            final(self).wf(),
            final(self).trains() == old(self).trains(),
            final(self).initial() == old(self).initial(),
            final(self).log().lines() == old(self).log().lines(),
            final(self).log().handed_text() == old(self).log().handed_text(),
            final(self).log().pending_text() == old(self).log().pending_text(),
            answered(
                old(self).log().progress(),
                stop,
                final(self).log().progress().current(),
                final(self).log().progress(),
            ),
            !stop ==> advanced(
                old(self).trains(),
                old(self).log().progress().current(),
                weight,
                embedding,
                final(self).log().progress().current(),
            ),
    {
        let next = advance(self.journal.state(), self.regime, weight, embedding);
        self.journal.polled(stop, next);
    }

    /// Hands over the text that was written since the last time.
    pub fn take_text(&mut self) -> (text: String)
        requires
            old(self).wf(),
        ensures
            final(self).wf(),
            text@ == old(self).log().pending_text(),
            final(self).log().pending_text().len() == 0,
            final(self).log().handed_text() == old(self).log().handed_text() + text@,
            final(self).log().lines() == old(self).log().lines(),
            final(self).log().progress() == old(self).log().progress(),
            final(self).trains() == old(self).trains(),
            final(self).initial() == old(self).initial(),
    {
        self.journal.take_text()
    }
}

/// A frozen run does not move its embedding: every state that was measured, and
/// the one that the run is at, has the embedding that the run started from.
pub proof fn frozen_runs_keep_their_embedding(descent: Descent)
    requires
        descent.wf(),
        descent.trains() is FrozenEmbedding,
    ensures
        same_embedding(descent.initial(), descent.log().progress().current()),
        forall|k: int|
            0 <= k < descent.log().progress().measured().len() ==> same_embedding(
                descent.initial(),
                #[trigger] descent.log().progress().measured()[k],
            ),
{
}

/// A frozen run keeps its shell profile: where the shell means and their
/// separation are functions of the embedding, every record has the shell means
/// and the geometry margin of the first one.
pub proof fn frozen_runs_keep_their_profile(
    descent: Descent,
    means: spec_fn(Seq<Seq<Double>>) -> Seq<Double>,
    separation: spec_fn(Seq<Seq<Double>>) -> Double,
)
    requires
        descent.wf(),
        descent.trains() is FrozenEmbedding,
        forall|k: int|
            0 <= k < descent.log().progress().history().len() ==> {
                let record = #[trigger] descent.log().progress().history()[k];
                let embedding = descent.log().progress().measured()[k].embedding_part()@;
                record.mean_values() == means(embedding) && record.margin_value() == margin_of(
                    record.mean_values(),
                    separation(embedding),
                )
            },
    ensures
        forall|k: int|
            0 <= k < descent.log().progress().history().len() ==> {
                let record = #[trigger] descent.log().progress().history()[k];
                let first = descent.log().progress().history()[0];
                record.mean_values() == first.mean_values() && record.margin_value()
                    == first.margin_value()
            },
{
    frozen_runs_keep_their_embedding(descent);
    let progress = descent.log().progress();
    assert forall|k: int| 0 <= k < progress.history().len() implies {
        let record = #[trigger] progress.history()[k];
        let first = progress.history()[0];
        record.mean_values() == first.mean_values() && record.margin_value()
            == first.margin_value()
    } by {
        assert(same_embedding(descent.initial(), progress.measured()[k]));
        assert(same_embedding(descent.initial(), progress.measured()[0]));
    }
}

/// A vertex's share counts memorized neighbours. Its denominator is the number
/// of the vertex's neighbours, and its numerator the number of those neighbours
/// that fewer vertices than that rank before: by a larger score in the total
/// order, or by an equal score and a smaller index.
pub proof fn shares_count_leading_neighbours(
    adjacency: Seq<Seq<bool>>,
    scores: Seq<Seq<Double>>,
    u: int,
)
    requires
        simple(adjacency),
        adjacency.len() <= usize::MAX,
        0 <= u < adjacency.len(),
        scores[u].len() >= adjacency.len(),
    ensures
        top_share(adjacency, scores, u).denominator == set_int_range(
            0,
            adjacency.len() as int,
        ).filter(|v: int| adjacency[u][v]).len(),
        top_share(adjacency, scores, u).numerator == set_int_range(
            0,
            adjacency.len() as int,
        ).filter(
            |v: int|
                adjacency[u][v] && set_int_range(0, adjacency.len() as int).filter(
                    |w: int|
                        scores[u][w].total_rank() > scores[u][v].total_rank() || (
                        scores[u][w].total_rank() == scores[u][v].total_rank() && w < v),
                ).len() < set_int_range(0, adjacency.len() as int).filter(
                    |x: int| adjacency[u][x],
                ).len(),
        ).len(),
{
    let n = adjacency.len() as int;
    let row = scores[u].take(n);
    let order = ranking(row);
    ranking_exists(row);
    rankings_sort(row, order);
    let neighbours = adjacency[u];
    let degree = degree_of(adjacency, u) as int;
    lemma_count_bound(neighbours, n);
    lemma_count_is_cardinality(neighbours, n);
    assert(true_indices(neighbours, n) =~= set_int_range(0, n).filter(|v: int| adjacency[u][v]));
    let flags = Seq::new(order.len(), |i: int| neighbours[order[i] as int]);
    lemma_count_bound(flags, degree);
    lemma_count_is_cardinality(flags, degree);
    let places = true_indices(flags, degree);
    let leading = set_int_range(0, n).filter(
        |v: int|
            adjacency[u][v] && set_int_range(0, n).filter(
                |w: int|
                    scores[u][w].total_rank() > scores[u][v].total_rank() || (
                    scores[u][w].total_rank() == scores[u][v].total_rank() && w < v),
            ).len() < set_int_range(0, n).filter(|x: int| adjacency[u][x]).len(),
    );
    let at = |i: int| order[i] as int;
    assert forall|i: int| 0 <= i < n implies set_int_range(0, n).filter(
        |w: int|
            scores[u][w].total_rank() > scores[u][#[trigger] at(i)].total_rank() || (
            scores[u][w].total_rank() == scores[u][at(i)].total_rank() && w < at(i)),
    ).len() == i by {
        places_count_those_before(row, order, i);
        assert(order[i] < n);
        assert(set_int_range(0, n).filter(
            |w: int|
                scores[u][w].total_rank() > scores[u][at(i)].total_rank() || (
                scores[u][w].total_rank() == scores[u][at(i)].total_rank() && w < at(i)),
        ) =~= set_int_range(0, n).filter(
            |w: int|
                row[w].total_rank() > row[order[i] as int].total_rank() || (row[w].total_rank()
                    == row[order[i] as int].total_rank() && w < order[i]),
        ));
    }
    assert forall|i: int, j: int|
        places.contains(i) && places.contains(j) && #[trigger] at(i) == #[trigger] at(
            j,
        ) implies i == j by {
        assert(order[i] == order[j]);
    }
    assert forall|v: int| leading.contains(v) implies exists|i: int|
        places.contains(i) && #[trigger] at(i) == v by {
        assert(order.contains(v as usize));
        let i = choose|i: int| 0 <= i < order.len() && order[i] == v as usize;
        assert(at(i) == v);
    }
    assert forall|i: int| places.contains(i) implies leading.contains(#[trigger] at(i)) by {
        assert(order[i] < n);
    }
    assert(places.map(at) =~= leading);
    vstd::set_lib::lemma_map_size(places, leading, at);
}

/// Parameters are in order exactly where the width and the step budget are not
/// zero and the two deviations, the step size and the tolerance are positive and
/// finite, and are otherwise refused for the first of these that fails.
pub proof fn parameters_are_refused_in_order(params: Params)
    ensures
        params.fault() is None <==> params.width > 0 && params.max_steps > 0 && 0
            < params.embedding_sigma.bits < 0x7FF0_0000_0000_0000 && 0 < params.weight_sigma.bits
            < 0x7FF0_0000_0000_0000 && 0 < params.learning_rate.bits < 0x7FF0_0000_0000_0000 && 0
            < params.tolerance.bits < 0x7FF0_0000_0000_0000,
        params.width == 0 ==> params.fault() == Some(Error::InvalidDimension { dimension: 0 }),
        params.width > 0 && params.max_steps == 0 ==> params.fault() == Some(Error::ZeroMaxSteps),
        params.width > 0 && params.max_steps > 0 && !(0 < params.embedding_sigma.bits
            < 0x7FF0_0000_0000_0000) ==> params.fault() == Some(
            Error::InvalidRunParameter {
                parameter: "embedding_sigma",
                value: params.embedding_sigma,
            },
        ),
        params.width > 0 && params.max_steps > 0 && 0 < params.embedding_sigma.bits
            < 0x7FF0_0000_0000_0000 && !(0 < params.weight_sigma.bits < 0x7FF0_0000_0000_0000)
            ==> params.fault() == Some(
            Error::InvalidRunParameter { parameter: "weight_sigma", value: params.weight_sigma },
        ),
        params.width > 0 && params.max_steps > 0 && 0 < params.embedding_sigma.bits
            < 0x7FF0_0000_0000_0000 && 0 < params.weight_sigma.bits < 0x7FF0_0000_0000_0000 && !(0
            < params.learning_rate.bits < 0x7FF0_0000_0000_0000) ==> params.fault() == Some(
            Error::InvalidRunParameter {
                parameter: "learning_rate",
                value: params.learning_rate,
            },
        ),
        params.width > 0 && params.max_steps > 0 && 0 < params.embedding_sigma.bits
            < 0x7FF0_0000_0000_0000 && 0 < params.weight_sigma.bits < 0x7FF0_0000_0000_0000 && 0
            < params.learning_rate.bits < 0x7FF0_0000_0000_0000 && !(0 < params.tolerance.bits
            < 0x7FF0_0000_0000_0000) ==> params.fault() == Some(
            Error::InvalidRunParameter { parameter: "tolerance", value: params.tolerance },
        ),
{
    comparisons_are_numeric(params.embedding_sigma, params.embedding_sigma);
    comparisons_are_numeric(params.weight_sigma, params.weight_sigma);
    comparisons_are_numeric(params.learning_rate, params.learning_rate);
    comparisons_are_numeric(params.tolerance, params.tolerance);
}

/// A step moves the blocks that its regime trains: the weight always, and the
/// embedding only where it is learnable and a new one is given. An embedding
/// that stays has the same rows and the same width.
pub proof fn steps_move_the_trained_blocks(
    regime: Regime,
    before: Parameters,
    weight: Matrix<Double>,
    embedding: Option<Matrix<Double>>,
    after: Parameters,
)
    requires
        advanced(regime, before, weight, embedding, after),
    ensures
        after.weight_part() == weight,
        regime == Regime::FrozenEmbedding || embedding is None ==> after.embedding_part()@
            == before.embedding_part()@ && after.embedding_part().width()
            == before.embedding_part().width(),
        regime == Regime::LearnableEmbedding ==> (embedding matches Some(moved)
            ==> after.embedding_part() == moved),
{
}

/// A frozen run is at the rows of the embedding that it started from, and so was
/// every state that it measured.
pub proof fn frozen_runs_keep_their_rows(descent: Descent)
    requires
        descent.wf(),
        descent.trains() == Regime::FrozenEmbedding,
    ensures
        descent.log().progress().current().embedding_part()@
            == descent.initial().embedding_part()@,
        descent.log().progress().current().embedding_part().width()
            == descent.initial().embedding_part().width(),
        forall|k: int|
            0 <= k < descent.log().progress().measured().len() ==> (
            #[trigger] descent.log().progress().measured()[k]).embedding_part()@
                == descent.initial().embedding_part()@,
{
    frozen_runs_keep_their_embedding(descent);
    let states = descent.log().progress().measured();
    assert forall|k: int| 0 <= k < states.len() implies (#[trigger] states[k]).embedding_part()@
        == descent.initial().embedding_part()@ by {
        assert(same_embedding(descent.initial(), states[k]));
    }
}

/// The margin is the smaller of two numbers: the magnitude of the deepest mean
/// and the separation. It is a NaN, and so reaches no threshold, exactly where
/// there are fewer than two means, any mean is a NaN, or the separation is one.
pub proof fn margins_are_the_smaller_of_two(
    shell_means: Seq<Double>,
    separation: Double,
    i: int,
)
    ensures
        shell_means.len() < 2 || separation.nan() || (0 <= i < shell_means.len()
            && shell_means[i].nan()) ==> margin_of(shell_means, separation).nan(),
        shell_means.len() >= 2 && !separation.nan() && (forall|k: int|
            0 <= k < shell_means.len() ==> !(#[trigger] shell_means[k]).nan()) ==> {
            let margin = margin_of(shell_means, separation);
            let deepest = shell_means[shell_means.len() - 1].absolute();
            &&& !margin.nan()
            &&& deepest.rank() <= separation.rank() ==> margin.rank() == deepest.rank()
            &&& separation.rank() <= deepest.rank() ==> margin.rank() == separation.rank()
        },
{
    if 0 <= i < shell_means.len() && shell_means[i].nan() {
        assert(carries_nan(shell_means));
    }
    if shell_means.len() >= 2 && !separation.nan() && (forall|k: int|
        0 <= k < shell_means.len() ==> !(#[trigger] shell_means[k]).nan()) {
        let last = shell_means[shell_means.len() - 1];
        assert(!last.nan());
        assert(!carries_nan(shell_means));
        assert(last.absolute().magnitude() == last.magnitude());
    }
}

/// A run's readings go over all of its records: the first step that reaches a
/// threshold is the first record whose value does, and the peak is the largest
/// value that is no NaN, negative infinity where there is none.
pub proof fn readings_go_over_all_records(
    history: Seq<StepRecord>,
    threshold: Double,
    associative: Option<usize>,
    geometric: Option<usize>,
    k: int,
)
    requires
        is_first_reaching(score_series(history), threshold, associative),
        is_first_reaching(margin_series(history), threshold, geometric),
        0 <= k < history.len(),
    ensures
        associative matches Some(step) ==> step < history.len()
            && history[step as int].score_value().greater_or_same(threshold) && (k < step
            ==> !history[k].score_value().greater_or_same(threshold)),
        associative is None ==> !history[k].score_value().greater_or_same(threshold),
        geometric matches Some(step) ==> step < history.len()
            && history[step as int].margin_value().greater_or_same(threshold) && (k < step
            ==> !history[k].margin_value().greater_or_same(threshold)),
        geometric is None ==> !history[k].margin_value().greater_or_same(threshold),
        !peak_of(score_series(history)).nan(),
        !history[k].score_value().nan() ==> history[k].score_value().rank() <= peak_of(
            score_series(history),
        ).rank(),
        peak_of(score_series(history)).bits == 0xFFF0_0000_0000_0000 || exists|j: int|
            0 <= j < history.len() && (#[trigger] history[j]).score_value() == peak_of(
                score_series(history),
            ),
        !peak_of(margin_series(history)).nan(),
        !history[k].margin_value().nan() ==> history[k].margin_value().rank() <= peak_of(
            margin_series(history),
        ).rank(),
        peak_of(margin_series(history)).bits == 0xFFF0_0000_0000_0000 || exists|j: int|
            0 <= j < history.len() && (#[trigger] history[j]).margin_value() == peak_of(
                margin_series(history),
            ),
{
    let (scores, margins) = (score_series(history), margin_series(history));
    lemma_peak_bounds(scores);
    lemma_peak_bounds(margins);
    assert(scores[k] == history[k].score_value());
    assert(margins[k] == history[k].margin_value());
    if scores.contains(peak_of(scores)) {
        let j = choose|j: int| 0 <= j < scores.len() && scores[j] == peak_of(scores);
        assert(history[j].score_value() == peak_of(scores));
    }
    if margins.contains(peak_of(margins)) {
        let j = choose|j: int| 0 <= j < margins.len() && margins[j] == peak_of(margins);
        assert(history[j].margin_value() == peak_of(margins));
    }
}

/// A system has the walk matrix of its graph, set by adjacency and by the numbers
/// of neighbours, and every vertex has a neighbour.
pub proof fn systems_hold_their_walk(system: TinyNn, u: int, v: int)
    requires
        system.wf(),
        0 <= u < system.adjacency_rows().len(),
        0 <= v < system.adjacency_rows().len(),
    ensures
        system.walk_rows().len() == system.adjacency_rows().len(),
        system.walk_rows()[u][v].numerator == if system.adjacency_rows()[u][v] {
            1int
        } else {
            0int
        },
        system.walk_rows()[u][v].denominator == set_int_range(
            0,
            system.adjacency_rows().len() as int,
        ).filter(|w: int| system.adjacency_rows()[u][w]).len(),
        system.walk_rows()[u][v].denominator > 0,
{
    let adjacency = system.adjacency_rows();
    walks_step_evenly(adjacency, u, v);
    assert(degree_of(adjacency, u) > 0);
    lemma_count_bound(adjacency[u], adjacency.len() as int);
}

/// The columns stand in their order: four fixed names, then the mean of each of
/// the three shells by its distance; a record's line has its texts in the same
/// places; and it is complete exactly where there is a mean and a text for every
/// shell.
pub proof fn columns_stand_in_order(order: nat, cells: RecordCells, record: StepRecord, i: int)
    ensures
        StepRecord::header(order) == header_cells(),
        StepRecord::header(order).len() == 7,
        StepRecord::header(order)[0] == "loss"@,
        StepRecord::header(order)[1] == "associative_score"@,
        StepRecord::header(order)[2] == "geometry_margin"@,
        StepRecord::header(order)[3] == "relative_update"@,
        0 <= i < 3 ==> StepRecord::header(order)[4 + i] == "shell_mean_"@ + decimal(
            (1 + i) as nat,
        ),
        cells.cells() == StepRecord::row(cells),
        cells.cells().len() == 4 + cells.shell_means@.len(),
        cells.cells()[0] == cells.loss@,
        cells.cells()[1] == cells.associative_score@,
        cells.cells()[2] == cells.geometry_margin@,
        cells.cells()[3] == cells.relative_update@,
        0 <= i < cells.shell_means@.len() ==> cells.cells()[4 + i] == cells.shell_means@[i]@,
        record.complete(cells, order) <==> record.mean_values().len() == 3
            && cells.shell_means@.len() == 3,
{
}

/// The criteria are those of the experiments: a margin of 0.05, a slack of 1e-12
/// below a score of 1, and three shells.
pub proof fn criteria_have_their_values()
    ensures
        GEOMETRY_MARGIN == 0x3FA9_9999_9999_999A,
        FULL_MEMORIZATION_SLACK == 0x3D71_9799_812D_EA11,
        FULL_MEMORIZATION == 0x3FEF_FFFF_FFFF_DCD1,
        GEOMETRY_SHELLS == 3,
{
}

} // verus!
