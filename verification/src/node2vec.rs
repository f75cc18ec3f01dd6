//! The 1-hop `Node2Vec` system: its parameters, its graph-derived quantities,
//! and the decisions and records of its gradient-ascent runs.

use crate::double::{comparisons_are_numeric, Double};
use crate::error::Error;
use crate::graph::Graph;
use crate::journal::Logged;
use crate::matrix::Matrix;
use crate::numerics::{gaussian_matrix, is_seeded_draw, Draw};
use crate::progress::{numbered_records, run_ended, Phase, Record, StepLoop};
use crate::spectral::{
    first_isolated, grouping, is_grouping, laplacian, laplacian_entries_hold_their_terms,
    laplacian_entry, no_isolated, transition, walk_entry, walks_step_evenly, LaplacianEntry,
    Ratio, Spectrum,
};
use crate::text::{
    comma_led, comma_led_splits, decimal, line, numbered, push_cell, push_cells, push_decimal,
    push_newline, push_numbered, texts,
};
use std::ops::Range;
use std::path::Path;
use vstd::prelude::*;
use vstd::set_lib::set_int_range;
use vstd::string::StringExecFns;

pub use crate::progress::Outcome;

verus! {

/// Eigenvalue gap below which two eigenvalues count as one degenerate group:
/// the bit pattern of 1e-9.
pub const DEGENERACY_TOLERANCE: u64 = 0x3E11_2E0B_E826_D695;

/// Fraction of the spectral range within which successive degenerate groups
/// still count as Fiedler-like: the bit pattern of zero, which is the
/// degenerate group below the top and no more.
pub const FIEDLER_SPREAD_FRACTION: u64 = 0;

/// The offset between the seeds of a run's two factors.
pub const SECOND_FACTOR_OFFSET: u64 = 0x9E37_79B9_7F4A_7C15;

/// Run parameters for gradient ascent.
///
/// [`Params::default`] is a dimension of 100, a deviation of 1, a step size of
/// 0.01, 10 000 steps, and a relative-update stop at 1e-8.
#[derive(Clone, Copy, Debug, PartialEq)]
pub struct Params {
    /// Embedding dimensionality, the column count of the embedding.
    pub dimension: usize,
    /// Standard deviation of the initial entries.
    pub sigma: Double,
    /// Ascent step size.
    pub learning_rate: Double,
    /// Upper bound on applied updates.
    pub max_steps: usize,
    /// Relative update at or below which the run stops as converged.
    pub tolerance: Double,
}

impl Default for Params {
    fn default() -> (params: Params)
        ensures
            params.dimension == 100,
            params.sigma.bits == 0x3FF0_0000_0000_0000,
            params.learning_rate.bits == 0x3F84_7AE1_47AE_147B,
            params.max_steps == 10_000,
            params.tolerance.bits == 0x3E45_798E_E230_8C3A,
    {
        Params {
            dimension: 100,
            sigma: Double { bits: 0x3FF0_0000_0000_0000 },
            learning_rate: Double { bits: 0x3F84_7AE1_47AE_147B },
            max_steps: 10_000,
            tolerance: Double { bits: 0x3E45_798E_E230_8C3A },
        }
    }
}

impl Params {
    /// The first thing wrong with the parameters.
    pub open spec fn fault(self) -> Option<Error> {
        if self.dimension == 0 {
            Some(Error::InvalidDimension { dimension: 0 })
        } else if self.max_steps == 0 {
            Some(Error::ZeroMaxSteps)
        } else if !self.sigma.positive_finite() {
            Some(Error::InvalidRunParameter { parameter: "sigma", value: self.sigma })
        } else if !self.learning_rate.positive_finite() {
            Some(
                Error::InvalidRunParameter {
                    parameter: "learning_rate",
                    value: self.learning_rate,
                },
            )
        } else if !self.tolerance.positive_finite() {
            Some(Error::InvalidRunParameter { parameter: "tolerance", value: self.tolerance })
        } else {
            None
        }
    }

    /// Rejects a zero dimension, a zero step budget, and the first of the
    /// deviation, the step size and the tolerance that is not positive and
    /// finite.
    pub fn validate(&self) -> (result: Result<(), Error>)
        ensures
            result == match self.fault() {
                Some(error) => Err::<(), Error>(error),
                None => Ok(()),
            },
    {
        if self.dimension == 0 {
            return Err(Error::InvalidDimension { dimension: self.dimension });
        }
        if self.max_steps == 0 {
            return Err(Error::ZeroMaxSteps);
        }
        if !self.sigma.is_positive_finite() {
            return Err(Error::InvalidRunParameter { parameter: "sigma", value: self.sigma });
        }
        if !self.learning_rate.is_positive_finite() {
            return Err(
                Error::InvalidRunParameter {
                    parameter: "learning_rate",
                    value: self.learning_rate,
                },
            );
        }
        if !self.tolerance.is_positive_finite() {
            return Err(
                Error::InvalidRunParameter { parameter: "tolerance", value: self.tolerance },
            );
        }
        Ok(())
    }
}

/// The second seed as a function of the first.
pub open spec fn second_seed(seed: int) -> int {
    (seed + SECOND_FACTOR_OFFSET) % 0x1_0000_0000_0000_0000
}

/// The seed of a run's second factor: `seed` offset by the golden-ratio
/// constant, so that neighbouring seeds do not share initial data.
pub fn second_factor_seed(seed: u64) -> (second: u64)
    ensures
        second == second_seed(seed as int),
{
    seed.wrapping_add(SECOND_FACTOR_OFFSET)
}

/// Distinct seeds have distinct second seeds, and no seed is its own second
/// seed, so the two factors of a run never share their stream.
pub proof fn second_seeds_are_fresh(first: u64, second: u64)
    ensures
        second_seed(first as int) != first,
        second_seed(first as int) == second_seed(second as int) ==> first == second,
{
}

/// The weight-tied `Node2Vec` system of one graph: its vertex count and its
/// walk matrix.
#[derive(Clone, Debug)]
pub struct Node2Vec {
    order: usize,
    walk: Matrix<Ratio>,
}

impl Node2Vec {
    /// The vertex count.
    pub closed spec fn vertices(self) -> nat {
        self.order as nat
    }

    /// The rows of the walk matrix.
    pub closed spec fn walk_rows(self) -> Seq<Seq<Ratio>> {
        self.walk@
    }

    /// The walk matrix is square, one row per vertex.
    pub closed spec fn wf(self) -> bool {
        &&& self.walk.wf()
        &&& self.walk.has_shape(self.order as nat, self.order as nat)
    }

    /// Builds the system of `graph`, with [`transition`]'s error where it has
    /// an isolated vertex.
    pub fn new(graph: &Graph) -> (result: Result<Node2Vec, Error>)
        requires
            graph.wf(),
        ensures
            result is Ok <==> no_isolated(graph@),
            result matches Err(error) ==> error matches Error::IsolatedVertex { vertex }
                && first_isolated(graph@, vertex as int),
            result matches Ok(system) ==> system.wf() && system.vertices() == graph@.len()
                && system.walk_rows().len() == graph@.len() && forall|u: int, v: int|
                0 <= u < graph@.len() && 0 <= v < graph@.len() ==> #[trigger] system.walk_rows()[u][v]
                    == walk_entry(graph@, u, v),
    {
        match transition(graph) {
            Ok(walk) => Ok(Node2Vec { order: graph.order(), walk }),
            Err(error) => Err(error),
        }
    }

    /// The vertex count, which is the row count of a valid embedding.
    pub fn order(&self) -> (order: usize)
        ensures
            order == self.vertices(),
    {
        self.order
    }

    /// The row-normalized transition matrix.
    pub fn walk(&self) -> (walk: &Matrix<Ratio>)
        requires
            self.wf(),
        ensures
            walk@ == self.walk_rows(),
            walk.wf(),
            walk.has_shape(self.vertices(), self.vertices()),
    {
        &self.walk
    }

    /// Draws the initial embedding, one row per vertex and one column per
    /// dimension, from the stream of `seed`. Refuses parameters that
    /// [`Params::validate`] refuses, and then an entry count that overflows.
    pub fn initial_embedding(&self, params: &Params, seed: u64) -> (result: Result<
        Matrix<Draw>,
        Error,
    >)
        ensures
            match params.fault() {
                Some(error) => result == Err::<Matrix<Draw>, Error>(error),
                None => if self.vertices() * params.dimension > usize::MAX {
                    result == Err::<Matrix<Draw>, Error>(
                        Error::EmbeddingTooLarge {
                            rows: self.vertices() as usize,
                            columns: params.dimension,
                        },
                    )
                } else {
                    result matches Ok(draws) && is_seeded_draw(
                        draws,
                        self.vertices(),
                        params.dimension as nat,
                        seed,
                    )
                },
            },
    {
        if let Err(error) = params.validate() {
            return Err(error);
        }
        if self.order.checked_mul(params.dimension).is_none() {
            return Err(
                Error::EmbeddingTooLarge { rows: self.order, columns: params.dimension },
            );
        }
        gaussian_matrix(self.order, params.dimension, seed)
    }

    /// Rejects an embedding of `rows` rows where that is not the vertex count.
    pub fn check_order(&self, rows: usize) -> (result: Result<(), Error>)
        ensures
            rows == self.vertices() ==> result is Ok,
            rows != self.vertices() ==> result == Err::<(), Error>(
                Error::EmbeddingOrderMismatch { rows, order: self.vertices() as usize },
            ),
    {
        if rows == self.order {
            Ok(())
        } else {
            Err(Error::EmbeddingOrderMismatch { rows, order: self.order })
        }
    }

    /// Rejects a pair of factors, given as row and column counts, that is not
    /// two embeddings of equal shape: a wrong row count of the first, then of
    /// the second, then differing widths.
    pub fn check_pair(&self, first: (usize, usize), second: (usize, usize)) -> (result: Result<
        (),
        Error,
    >)
        ensures
            result == if first.0 != self.vertices() {
                Err::<(), Error>(
                    Error::EmbeddingOrderMismatch {
                        rows: first.0,
                        order: self.vertices() as usize,
                    },
                )
            } else if second.0 != self.vertices() {
                Err::<(), Error>(
                    Error::EmbeddingOrderMismatch {
                        rows: second.0,
                        order: self.vertices() as usize,
                    },
                )
            } else if first.1 != second.1 {
                Err::<(), Error>(
                    Error::EmbeddingShapeMismatch { columns: first.1, other_columns: second.1 },
                )
            } else {
                Ok::<(), Error>(())
            },
    {
        if let Err(error) = self.check_order(first.0) {
            return Err(error);
        }
        if let Err(error) = self.check_order(second.0) {
            return Err(error);
        }
        if first.1 == second.1 {
            Ok(())
        } else {
            Err(Error::EmbeddingShapeMismatch { columns: first.1, other_columns: second.1 })
        }
    }
}

/// What a weight-tied run starts from.
#[derive(Clone, Debug)]
pub struct TiedStart {
    /// The system of the run's graph.
    pub system: Node2Vec,
    /// The terms of the graph's Laplacian.
    pub laplacian: Matrix<LaplacianEntry>,
    /// The draws behind the initial embedding.
    pub embedding: Matrix<Draw>,
}

/// What a weight-untied run starts from.
#[derive(Clone, Debug)]
pub struct UntiedStart {
    /// The system of the run's graph.
    pub system: Node2Vec,
    /// The terms of the graph's Laplacian.
    pub laplacian: Matrix<LaplacianEntry>,
    /// The draws behind the initial first factor.
    pub first: Matrix<Draw>,
    /// The draws behind the initial second factor.
    pub second: Matrix<Draw>,
}

/// Whether `system` and `laplacian` are those of the graph with these
/// adjacency rows.
pub open spec fn derived_from(
    adjacency: Seq<Seq<bool>>,
    system: Node2Vec,
    laplacian: Matrix<LaplacianEntry>,
) -> bool {
    &&& system.wf()
    &&& system.vertices() == adjacency.len()
    &&& system.walk_rows().len() == adjacency.len()
    &&& forall|u: int, v: int|
        0 <= u < adjacency.len() && 0 <= v < adjacency.len()
            ==> #[trigger] system.walk_rows()[u][v] == walk_entry(adjacency, u, v)
    &&& laplacian.wf()
    &&& laplacian.has_shape(adjacency.len(), adjacency.len())
    &&& forall|u: int, v: int|
        0 <= u < adjacency.len() && 0 <= v < adjacency.len() ==> #[trigger] laplacian@[u][v]
            == laplacian_entry(adjacency, u, v)
}

/// Prepares a weight-tied run. Refuses parameters that [`Params::validate`]
/// refuses, then a graph with an isolated vertex, then an embedding whose entry
/// count overflows.
pub fn prepare_tied(graph: &Graph, params: &Params, seed: u64) -> (result: Result<
    TiedStart,
    Error,
>)
    requires
        graph.wf(),
    ensures
        match params.fault() {
            Some(error) => result == Err::<TiedStart, Error>(error),
            None => if !no_isolated(graph@) {
                result matches Err(error) && error matches Error::IsolatedVertex { vertex }
                    && first_isolated(graph@, vertex as int)
            } else if graph@.len() * params.dimension > usize::MAX {
                result == Err::<TiedStart, Error>(
                    Error::EmbeddingTooLarge {
                        rows: graph@.len() as usize,
                        columns: params.dimension,
                    },
                )
            } else {
                result matches Ok(start) && derived_from(graph@, start.system, start.laplacian)
                    && is_seeded_draw(
                    start.embedding,
                    graph@.len(),
                    params.dimension as nat,
                    seed,
                )
            },
        },
{
    if let Err(error) = params.validate() {
        return Err(error);
    }
    let system = match Node2Vec::new(graph) {
        Ok(system) => system,
        Err(error) => {
            return Err(error);
        },
    };
    let laplacian = match laplacian(graph) {
        Ok(terms) => terms,
        Err(error) => {
            return Err(error);
        },
    };
    match system.initial_embedding(params, seed) {
        Ok(embedding) => Ok(TiedStart { system, laplacian, embedding }),
        Err(error) => Err(error),
    }
}

/// Prepares a weight-untied run as [`prepare_tied`] does, with a second factor
/// drawn from the second seed of `seed`.
pub fn prepare_untied(graph: &Graph, params: &Params, seed: u64) -> (result: Result<
    UntiedStart,
    Error,
>)
    requires
        graph.wf(),
    ensures
        match params.fault() {
            Some(error) => result == Err::<UntiedStart, Error>(error),
            None => if !no_isolated(graph@) {
                result matches Err(error) && error matches Error::IsolatedVertex { vertex }
                    && first_isolated(graph@, vertex as int)
            } else if graph@.len() * params.dimension > usize::MAX {
                result == Err::<UntiedStart, Error>(
                    Error::EmbeddingTooLarge {
                        rows: graph@.len() as usize,
                        columns: params.dimension,
                    },
                )
            } else {
                result matches Ok(start) && derived_from(graph@, start.system, start.laplacian)
                    && is_seeded_draw(
                    start.first,
                    graph@.len(),
                    params.dimension as nat,
                    seed,
                ) && is_seeded_draw(
                    start.second,
                    graph@.len(),
                    params.dimension as nat,
                    second_seed(seed as int) as u64,
                )
            },
        },
{
    let tied = match prepare_tied(graph, params, seed) {
        Ok(start) => start,
        Err(error) => {
            return Err(error);
        },
    };
    match tied.system.initial_embedding(params, second_factor_seed(seed)) {
        Ok(second) => Ok(
            UntiedStart {
                system: tied.system,
                laplacian: tied.laplacian,
                first: tied.embedding,
                second,
            },
        ),
        Err(error) => Err(error),
    }
}

/// The leading eigenvalue of group `k` lies within `spread` of the leading one
/// below the top group.
pub open spec fn fiedler_like(
    distances: Seq<Seq<Double>>,
    groups: Seq<Range<usize>>,
    spread: Double,
    k: int,
) -> bool {
    !distances[groups[1].start as int][groups[k].start as int].greater(spread)
}

/// `last` is the last group of the Fiedler-like range: the groups from the one
/// below the top up to it are within `spread`, and the next one, if any, is
/// not.
pub open spec fn fiedler_stops(
    distances: Seq<Seq<Double>>,
    groups: Seq<Range<usize>>,
    spread: Double,
    last: int,
) -> bool {
    &&& 1 <= last < groups.len()
    &&& forall|k: int| 2 <= k <= last ==> #[trigger] fiedler_like(distances, groups, spread, k)
    &&& last + 1 < groups.len() ==> !fiedler_like(distances, groups, spread, last + 1)
}

/// `range` is the Fiedler-like range of the groups: the only group where there
/// is one, and else the groups below the top one, as far as `spread` reaches.
pub open spec fn is_fiedler_range(
    distances: Seq<Seq<Double>>,
    groups: Seq<Range<usize>>,
    spread: Double,
    range: Range<usize>,
) -> bool {
    if groups.len() < 2 {
        range == groups[0]
    } else {
        range.start == groups[1].start && exists|last: int|
            #[trigger] fiedler_stops(distances, groups, spread, last) && range.end
                == groups[last].end
    }
}

/// The Fiedler-like index range of `spectrum`: whole degenerate groups from the
/// one below the top on, while the group's leading eigenvalue stays within
/// `spread` of the first one outside the top group. On a spectrum with a single
/// group the range is that group.
pub fn fiedler_like_range(spectrum: &Spectrum, spread: Double) -> (range: Range<usize>)
    requires
        spectrum.wf(),
    ensures
        is_grouping(
            spectrum.gaps(),
            Double { bits: DEGENERACY_TOLERANCE },
            grouping(spectrum.gaps(), Double { bits: DEGENERACY_TOLERANCE }),
        ),
        is_fiedler_range(
            spectrum.gaps(),
            grouping(spectrum.gaps(), Double { bits: DEGENERACY_TOLERANCE }),
            spread,
            range,
        ),
        range.start < range.end <= spectrum.values().len(),
        grouping(spectrum.gaps(), Double { bits: DEGENERACY_TOLERANCE }).len() >= 2
            && spread.same_value(Double { bits: 0 }) ==> range == grouping(
            spectrum.gaps(),
            Double { bits: DEGENERACY_TOLERANCE },
        )[1],
{
    let groups: Vec<Range<usize>> = spectrum.degenerate_groups(
        Double::from_bits(DEGENERACY_TOLERANCE),
    );
    if groups.len() < 2 {
        return groups[0].start..groups[0].end;
    }
    let start: usize = groups[1].start;
    let mut last: usize = 1;
    assert(groups@[1].start < groups@[1].end);
    while groups.len() - last > 1 && !spectrum.distance(start, groups[last + 1].start).exceeds(
        spread,
    )
        invariant
            spectrum.wf(),
            is_grouping(spectrum.gaps(), Double { bits: DEGENERACY_TOLERANCE }, groups@),
            1 <= last < groups@.len(),
            start == groups@[1].start,
            start < groups@[1].end <= groups@[last as int].end,
            forall|k: int|
                2 <= k <= last ==> #[trigger] fiedler_like(
                    spectrum.gaps(),
                    groups@,
                    spread,
                    k,
                ),
        decreases groups@.len() - last,
    {
        assert(fiedler_like(spectrum.gaps(), groups@, spread, last + 1));
        assert(crate::spectral::continues(groups@, last + 1));
        assert(groups@[last + 1].start < groups@[last + 1].end);
        last += 1;
    }
    assert(fiedler_stops(spectrum.gaps(), groups@, spread, last as int));
    assert(groups@[last as int].end <= spectrum.gaps().len());
    let range = start..groups[last].end;
    proof {
        if spread.same_value(Double { bits: 0 }) {
            zero_spread_is_one_group(*spectrum, groups@, spread, range);
        }
    }
    range
}

/// The fraction [`FIEDLER_SPREAD_FRACTION`] of a spectrum's eigenvalue range.
/// The fraction is zero, so the product is zero, and a NaN where the range is
/// not finite.
pub fn fiedler_spread(spectrum: &Spectrum) -> (spread: Double)
    requires
        spectrum.wf(),
    ensures
        spectrum.gaps()[0][spectrum.values().len() - 1].finite() ==> spread.bits
            == FIEDLER_SPREAD_FRACTION,
        !spectrum.gaps()[0][spectrum.values().len() - 1].finite() ==> spread.nan(),
{
    let range: Double = spectrum.distance(0, spectrum.order() - 1);
    if range.is_finite() {
        Double::from_bits(FIEDLER_SPREAD_FRACTION)
    } else {
        Double::from_bits(0x7FF8_0000_0000_0000)
    }
}

proof fn lemma_group_ends_grow(
    distances: Seq<Seq<Double>>,
    tolerance: Double,
    groups: Seq<Range<usize>>,
    low: int,
    high: int,
)
    requires
        is_grouping(distances, tolerance, groups),
        0 <= low <= high < groups.len(),
    ensures
        groups[low].end <= groups[high].end,
    decreases high - low,
{
    if low < high {
        lemma_group_ends_grow(distances, tolerance, groups, low, high - 1);
        assert(crate::spectral::continues(groups, high));
        assert(groups[high].start < groups[high].end);
    }
}

/// A wider spread never shortens the Fiedler-like range, and leaves its start
/// alone.
pub proof fn wider_spreads_reach_further(
    distances: Seq<Seq<Double>>,
    tolerance: Double,
    groups: Seq<Range<usize>>,
    narrow: Double,
    wide: Double,
    short: Range<usize>,
    long: Range<usize>,
)
    requires
        is_grouping(distances, tolerance, groups),
        wide.greater_or_same(narrow),
        is_fiedler_range(distances, groups, narrow, short),
        is_fiedler_range(distances, groups, wide, long),
    ensures
        short.start == long.start,
        short.end <= long.end,
{
    if groups.len() >= 2 {
        let near = choose|last: int|
            #[trigger] fiedler_stops(distances, groups, narrow, last) && short.end
                == groups[last].end;
        let far = choose|last: int|
            #[trigger] fiedler_stops(distances, groups, wide, last) && long.end
                == groups[last].end;
        if far < near {
            assert(fiedler_like(distances, groups, narrow, far + 1));
            assert(!fiedler_like(distances, groups, wide, far + 1));
        }
        lemma_group_ends_grow(distances, tolerance, groups, near, far);
    }
}

/// The groups and the spread determine the Fiedler-like range.
pub proof fn fiedler_range_is_unique(
    distances: Seq<Seq<Double>>,
    groups: Seq<Range<usize>>,
    spread: Double,
    first: Range<usize>,
    second: Range<usize>,
)
    requires
        is_fiedler_range(distances, groups, spread, first),
        is_fiedler_range(distances, groups, spread, second),
    ensures
        first == second,
{
    if groups.len() >= 2 {
        let a = choose|last: int|
            #[trigger] fiedler_stops(distances, groups, spread, last) && first.end
                == groups[last].end;
        let b = choose|last: int|
            #[trigger] fiedler_stops(distances, groups, spread, last) && second.end
                == groups[last].end;
        if a < b {
            assert(fiedler_like(distances, groups, spread, a + 1));
        }
        if b < a {
            assert(fiedler_like(distances, groups, spread, b + 1));
        }
    }
}

/// At a spread of zero the Fiedler-like range is exactly the degenerate group
/// below the top one.
pub proof fn zero_spread_is_one_group(
    spectrum: Spectrum,
    groups: Seq<Range<usize>>,
    spread: Double,
    range: Range<usize>,
)
    requires
        spectrum.wf(),
        is_grouping(spectrum.gaps(), Double { bits: DEGENERACY_TOLERANCE }, groups),
        groups.len() >= 2,
        spread.same_value(Double { bits: 0 }),
        is_fiedler_range(spectrum.gaps(), groups, spread, range),
    ensures
        range == groups[1],
{
    let zero = Double { bits: 0 };
    let tolerance = Double { bits: DEGENERACY_TOLERANCE };
    let (values, distances) = (spectrum.values(), spectrum.gaps());
    let last = choose|last: int|
        #[trigger] fiedler_stops(distances, groups, spread, last) && range.end
            == groups[last].end;
    if last >= 2 {
        assert(fiedler_like(distances, groups, spread, 2));
        let (start, end) = (groups[1].start as int, groups[1].end as int);
        assert(crate::spectral::continues(groups, 1));
        assert(crate::spectral::continues(groups, 2));
        assert(groups[2].start < groups[2].end);
        assert(groups[1].start < groups[1].end);
        assert(groups[0].start < groups[0].end);
        assert(crate::spectral::group_break(distances, tolerance, start));
        assert(crate::spectral::group_break(distances, tolerance, end));
        assert(distances[start - 1][start].greater(zero));
        assert(distances[end - 1][end].greater(zero));
        assert(!values[start].nan());
        assert(values[end - 1].rank() != values[end].rank());
        assert(values[start].total_rank() >= values[end - 1].total_rank());
        assert(values[end - 1].total_rank() >= values[end].total_rank());
        assert(values[start].rank() > values[end].rank());
        assert(distances[start][end].greater(zero));
    }
}

/// One recorded step of a weight-tied run: the state after `step` applied
/// updates, together with the relative size of the update pending from it.
#[derive(Clone, Debug, PartialEq)]
pub struct StepRecord {
    step: usize,
    objective: Double,
    relative_update: Double,
    observation8_residual: Double,
    projections: Vec<Double>,
    coefficient_norms: Vec<Double>,
}

impl Record for StepRecord {
    closed spec fn step_number(&self) -> nat {
        self.step as nat
    }

    closed spec fn pending_update(&self) -> Double {
        self.relative_update
    }

    fn step(&self) -> (step: usize) {
        self.step
    }

    fn relative_update(&self) -> (update: Double) {
        self.relative_update
    }
}

impl StepRecord {
    /// The objective's value.
    pub closed spec fn objective_value(self) -> Double {
        self.objective
    }

    /// The subspace residual's value.
    pub closed spec fn residual_value(self) -> Double {
        self.observation8_residual
    }

    /// The projections, one per eigenvector.
    pub closed spec fn projection_values(self) -> Seq<Double> {
        self.projections@
    }

    /// The coefficient norms, one per eigenvector.
    pub closed spec fn norm_values(self) -> Seq<Double> {
        self.coefficient_norms@
    }

    /// Pairs a step number with its measurements.
    pub fn new(
        step: usize,
        objective: Double,
        relative_update: Double,
        observation8_residual: Double,
        projections: Vec<Double>,
        coefficient_norms: Vec<Double>,
    ) -> (record: StepRecord)
        ensures
            record.step_number() == step,
            record.objective_value() == objective,
            record.pending_update() == relative_update,
            record.residual_value() == observation8_residual,
            record.projection_values() == projections@,
            record.norm_values() == coefficient_norms@,
    {
        StepRecord {
            step,
            objective,
            relative_update,
            observation8_residual,
            projections,
            coefficient_norms,
        }
    }

    /// The number of updates applied before this state.
    pub fn step(&self) -> (step: usize)
        ensures
            step == self.step_number(),
    {
        self.step
    }

    /// The objective at this state.
    pub fn objective(&self) -> (value: Double)
        ensures
            value == self.objective_value(),
    {
        self.objective
    }

    /// The relative size of the update pending from this state.
    pub fn relative_update(&self) -> (value: Double)
        ensures
            value == self.pending_update(),
    {
        self.relative_update
    }

    /// The residual between the leading eigenspaces of the symmetrized
    /// probabilities and of the Gram matrix at this state.
    pub fn observation8_residual(&self) -> (value: Double)
        ensures
            value == self.residual_value(),
    {
        self.observation8_residual
    }

    /// The projection norm of the embedding on every eigenvector, indexed as
    /// the spectrum is.
    pub fn projections(&self) -> (values: &[Double])
        ensures
            values@ == self.projection_values(),
    {
        self.projections.as_slice()
    }

    /// The coefficient matrix's norm on every eigenvector, indexed as the
    /// spectrum is.
    pub fn coefficient_norms(&self) -> (values: &[Double])
        ensures
            values@ == self.norm_values(),
    {
        self.coefficient_norms.as_slice()
    }

    /// The projection on the top eigenvector: entry 0 of the projections.
    pub fn degenerate_projection(&self) -> (value: Double)
        requires
            self.projection_values().len() > 0,
        ensures
            value == self.projection_values()[0],
    {
        self.projections[0]
    }
}

/// One recorded step of a weight-untied run.
#[derive(Clone, Debug, PartialEq)]
pub struct UntiedStepRecord {
    step: usize,
    objective: Double,
    relative_update: Double,
    first_projections: Vec<Double>,
    second_projections: Vec<Double>,
}

impl Record for UntiedStepRecord {
    closed spec fn step_number(&self) -> nat {
        self.step as nat
    }

    closed spec fn pending_update(&self) -> Double {
        self.relative_update
    }

    fn step(&self) -> (step: usize) {
        self.step
    }

    fn relative_update(&self) -> (update: Double) {
        self.relative_update
    }
}

impl UntiedStepRecord {
    /// The objective's value.
    pub closed spec fn objective_value(self) -> Double {
        self.objective
    }

    /// The first factor's projections, one per eigenvector.
    pub closed spec fn first_values(self) -> Seq<Double> {
        self.first_projections@
    }

    /// The second factor's projections, one per eigenvector.
    pub closed spec fn second_values(self) -> Seq<Double> {
        self.second_projections@
    }

    /// Pairs a step number with its measurements.
    pub fn new(
        step: usize,
        objective: Double,
        relative_update: Double,
        first_projections: Vec<Double>,
        second_projections: Vec<Double>,
    ) -> (record: UntiedStepRecord)
        ensures
            record.step_number() == step,
            record.objective_value() == objective,
            record.pending_update() == relative_update,
            record.first_values() == first_projections@,
            record.second_values() == second_projections@,
    {
        UntiedStepRecord {
            step,
            objective,
            relative_update,
            first_projections,
            second_projections,
        }
    }

    /// The number of updates applied before this state.
    pub fn step(&self) -> (step: usize)
        ensures
            step == self.step_number(),
    {
        self.step
    }

    /// The weight-untied objective at this state.
    pub fn objective(&self) -> (value: Double)
        ensures
            value == self.objective_value(),
    {
        self.objective
    }

    /// The relative size of the updates pending from this state.
    pub fn relative_update(&self) -> (value: Double)
        ensures
            value == self.pending_update(),
    {
        self.relative_update
    }

    /// The first factor's projection norm on every eigenvector.
    pub fn first_projections(&self) -> (values: &[Double])
        ensures
            values@ == self.first_values(),
    {
        self.first_projections.as_slice()
    }

    /// The second factor's projection norm on every eigenvector.
    pub fn second_projections(&self) -> (values: &[Double])
        ensures
            values@ == self.second_values(),
    {
        self.second_projections.as_slice()
    }
}

/// The result of a weight-tied run.
#[derive(Clone, Debug)]
pub struct TiedRun {
    embedding: Matrix<Double>,
    spectrum: Spectrum,
    records: Vec<StepRecord>,
    outcome: Outcome,
    steps: usize,
}

impl TiedRun {
    /// The records, in the order of the steps.
    pub closed spec fn history(self) -> Seq<StepRecord> {
        self.records@
    }

    /// The number of applied updates.
    pub closed spec fn applied(self) -> nat {
        self.steps as nat
    }

    /// Why the step loop ended.
    pub closed spec fn ending(self) -> Outcome {
        self.outcome
    }

    /// The final embedding.
    pub closed spec fn final_embedding(self) -> Matrix<Double> {
        self.embedding
    }

    /// The spectrum that the run measured against.
    pub closed spec fn measured_spectrum(self) -> Spectrum {
        self.spectrum
    }

    /// One record per state, numbered from 0.
    pub open spec fn wf(self) -> bool {
        self.history().len() == self.applied() + 1 && numbered_records(self.history())
    }

    /// The result of a step loop, or `None` where the loop has not ended. The
    /// final embedding is the state that the loop measured last.
    pub fn new(
        spectrum: Spectrum,
        progress: StepLoop<Matrix<Double>, StepRecord>,
    ) -> (made: Option<TiedRun>)
        requires
            progress.wf(),
        ensures
            made is Some <==> progress.waits_for() is Ended,
            made matches Some(run) ==> run.wf() && run.final_embedding() == progress.current()
                && run.final_embedding() == progress.measured().last() && run.measured_spectrum()
                == spectrum && run.history() == progress.history() && run.applied()
                == progress.applied() && progress.waits_for() == Phase::Ended(run.ending())
                && run_ended(
                run.history(),
                run.applied(),
                run.ending(),
                progress.budget(),
                progress.bound(),
            ),
    {
        let steps: usize = progress.steps();
        match progress.phase() {
            Phase::Ended(outcome) => {
                let (embedding, records) = progress.into_parts();
                Some(TiedRun { embedding, spectrum, records, outcome, steps })
            },
            _ => None,
        }
    }

    /// The final embedding.
    pub fn embedding(&self) -> (embedding: &Matrix<Double>)
        ensures
            *embedding == self.final_embedding(),
    {
        &self.embedding
    }

    /// The spectrum that the run measured against.
    pub fn spectrum(&self) -> (spectrum: &Spectrum)
        ensures
            *spectrum == self.measured_spectrum(),
    {
        &self.spectrum
    }

    /// The recorded steps, in the order of their lines.
    pub fn records(&self) -> (records: &[StepRecord])
        ensures
            records@ == self.history(),
    {
        self.records.as_slice()
    }

    /// The last recorded step.
    pub fn last(&self) -> (record: Option<&StepRecord>)
        ensures
            record is Some <==> self.history().len() > 0,
            record matches Some(last) ==> *last == self.history().last(),
    {
        self.records.as_slice().last()
    }

    /// The number of applied updates.
    pub fn steps(&self) -> (steps: usize)
        ensures
            steps == self.applied(),
    {
        self.steps
    }

    /// Why the step loop ended.
    pub fn outcome(&self) -> (outcome: Outcome)
        ensures
            outcome == self.ending(),
    {
        self.outcome
    }
}

/// The result of a weight-untied run.
#[derive(Clone, Debug)]
pub struct UntiedRun {
    first: Matrix<Double>,
    second: Matrix<Double>,
    spectrum: Spectrum,
    records: Vec<UntiedStepRecord>,
    outcome: Outcome,
    steps: usize,
}

impl UntiedRun {
    /// The records, in the order of the steps.
    pub closed spec fn history(self) -> Seq<UntiedStepRecord> {
        self.records@
    }

    /// The number of applied updates.
    pub closed spec fn applied(self) -> nat {
        self.steps as nat
    }

    /// Why the step loop ended.
    pub closed spec fn ending(self) -> Outcome {
        self.outcome
    }

    /// The final factors.
    pub closed spec fn final_factors(self) -> (Matrix<Double>, Matrix<Double>) {
        (self.first, self.second)
    }

    /// The spectrum that the run measured against.
    pub closed spec fn measured_spectrum(self) -> Spectrum {
        self.spectrum
    }

    /// One record per state, numbered from 0.
    pub open spec fn wf(self) -> bool {
        self.history().len() == self.applied() + 1 && numbered_records(self.history())
    }

    /// The result of a step loop over the two factors, or `None` where the loop
    /// has not ended. The final factors are the state that the loop measured
    /// last.
    pub fn new(
        spectrum: Spectrum,
        progress: StepLoop<(Matrix<Double>, Matrix<Double>), UntiedStepRecord>,
    ) -> (made: Option<UntiedRun>)
        requires
            progress.wf(),
        ensures
            made is Some <==> progress.waits_for() is Ended,
            made matches Some(run) ==> run.wf() && run.final_factors() == progress.current()
                && run.final_factors() == progress.measured().last() && run.measured_spectrum()
                == spectrum && run.history() == progress.history() && run.applied()
                == progress.applied() && progress.waits_for() == Phase::Ended(run.ending())
                && run_ended(
                run.history(),
                run.applied(),
                run.ending(),
                progress.budget(),
                progress.bound(),
            ),
    {
        let steps: usize = progress.steps();
        match progress.phase() {
            Phase::Ended(outcome) => {
                let (factors, records) = progress.into_parts();
                let (first, second) = factors;
                Some(UntiedRun { first, second, spectrum, records, outcome, steps })
            },
            _ => None,
        }
    }

    /// The final first factor.
    pub fn first(&self) -> (factor: &Matrix<Double>)
        ensures
            *factor == self.final_factors().0,
    {
        &self.first
    }

    /// The final second factor.
    pub fn second(&self) -> (factor: &Matrix<Double>)
        ensures
            *factor == self.final_factors().1,
    {
        &self.second
    }

    /// The spectrum that the run measured against.
    pub fn spectrum(&self) -> (spectrum: &Spectrum)
        ensures
            *spectrum == self.measured_spectrum(),
    {
        &self.spectrum
    }

    /// The recorded steps, in the order of their lines.
    pub fn records(&self) -> (records: &[UntiedStepRecord])
        ensures
            records@ == self.history(),
    {
        self.records.as_slice()
    }

    /// The last recorded step.
    pub fn last(&self) -> (record: Option<&UntiedStepRecord>)
        ensures
            record is Some <==> self.history().len() > 0,
            record matches Some(last) ==> *last == self.history().last(),
    {
        self.records.as_slice().last()
    }

    /// The number of applied updates.
    pub fn steps(&self) -> (steps: usize)
        ensures
            steps == self.applied(),
    {
        self.steps
    }

    /// Why the step loop ended.
    pub fn outcome(&self) -> (outcome: Outcome)
        ensures
            outcome == self.ending(),
    {
        self.outcome
    }
}

/// The files that a weight-untied run writes, by path.
#[derive(Clone, Copy, Debug)]
pub struct UntiedOutputs<'a> {
    /// Per-step instrumentation.
    pub history: &'a Path,
    /// The node-node cosine-similarity matrix of the final first factor.
    pub first_cosines: &'a Path,
    /// The node-node cosine-similarity matrix of the final second factor.
    pub second_cosines: &'a Path,
}

/// The cells of the weight-tied header after `step`.
pub open spec fn tied_header_cells(order: nat) -> Seq<Seq<char>> {
    seq!["objective"@, "relative_update"@, "observation8_residual"@] + numbered(
        "projection_"@,
        0,
        order,
    ) + numbered("coefficient_norm_"@, 0, order)
}

/// Appends the weight-tied header: the fixed columns followed by one
/// `projection_i` and one `coefficient_norm_i` per vertex.
pub fn write_tied_header(sink: &mut String, order: usize)
    ensures
        final(sink)@ == old(sink)@ + line("step"@, tied_header_cells(order as nat)),
{
    sink.append("step");
    push_cell(sink, "objective");
    push_cell(sink, "relative_update");
    push_cell(sink, "observation8_residual");
    push_numbered(sink, "projection_", 0, order);
    push_numbered(sink, "coefficient_norm_", 0, order);
    push_newline(sink);
    proof {
        let fixed = seq!["objective"@, "relative_update"@, "observation8_residual"@];
        let projections = numbered("projection_"@, 0, order as nat);
        let norms = numbered("coefficient_norm_"@, 0, order as nat);
        lemma_three_cells(fixed[0], fixed[1], fixed[2]);
        comma_led_splits(fixed, projections);
        comma_led_splits(fixed + projections, norms);
        assert(sink@ =~= old(sink)@ + line("step"@, tied_header_cells(order as nat)));
    }
}

proof fn lemma_two_cells(a: Seq<char>, b: Seq<char>)
    ensures
        comma_led(seq![a, b]) == Seq::<char>::empty().push(',') + a.push(',') + b,
{
    reveal_with_fuel(comma_led, 3);
    assert(seq![a, b].drop_last() =~= seq![a]);
    assert(seq![a].drop_last() =~= Seq::empty());
    assert(comma_led(seq![a, b]) =~= Seq::<char>::empty().push(',') + a.push(',') + b);
}

proof fn lemma_three_cells(a: Seq<char>, b: Seq<char>, c: Seq<char>)
    ensures
        comma_led(seq![a, b, c]) == Seq::<char>::empty().push(',') + a.push(',') + b.push(',') + c,
{
    lemma_two_cells(a, b);
    assert(seq![a, b, c].drop_last() =~= seq![a, b]);
    assert(comma_led(seq![a, b, c]) =~= Seq::<char>::empty().push(',') + a.push(',') + b.push(',')
        + c);
}

/// The texts of a weight-tied record's measurements.
#[derive(Clone, Debug)]
pub struct TiedCells {
    pub objective: String,
    pub relative_update: String,
    pub observation8_residual: String,
    pub projections: Vec<String>,
    pub coefficient_norms: Vec<String>,
}

impl TiedCells {
    /// There is one text per value of the record.
    pub open spec fn fits(self, record: StepRecord) -> bool {
        &&& self.projections@.len() == record.projection_values().len()
        &&& self.coefficient_norms@.len() == record.norm_values().len()
    }

    /// The cells of the record's line after the step number.
    pub open spec fn cells(self) -> Seq<Seq<char>> {
        seq![self.objective@, self.relative_update@, self.observation8_residual@] + texts(
            self.projections@,
        ) + texts(self.coefficient_norms@)
    }
}

/// Appends a record's weight-tied line: its step number and its measurements in
/// the header's order, one cell per value.
pub fn write_tied_row(sink: &mut String, record: &StepRecord, cells: &TiedCells)
    requires
        cells.fits(*record),
    ensures
        final(sink)@ == old(sink)@ + line(decimal(record.step_number()), cells.cells()),
{
    push_decimal(sink, record.step);
    push_cell(sink, cells.objective.as_str());
    push_cell(sink, cells.relative_update.as_str());
    push_cell(sink, cells.observation8_residual.as_str());
    push_cells(sink, cells.projections.as_slice());
    push_cells(sink, cells.coefficient_norms.as_slice());
    push_newline(sink);
    proof {
        let fixed = seq![cells.objective@, cells.relative_update@, cells.observation8_residual@];
        lemma_three_cells(fixed[0], fixed[1], fixed[2]);
        comma_led_splits(fixed, texts(cells.projections@));
        comma_led_splits(fixed + texts(cells.projections@), texts(cells.coefficient_norms@));
        assert(sink@ =~= old(sink)@ + line(decimal(record.step_number()), cells.cells()));
    }
}

/// The cells of the weight-untied header after `step`.
pub open spec fn untied_header_cells(order: nat) -> Seq<Seq<char>> {
    seq!["objective"@, "relative_update"@] + numbered("first_projection_"@, 0, order) + numbered(
        "second_projection_"@,
        0,
        order,
    )
}

/// Appends the weight-untied header: the fixed columns followed by one
/// `first_projection_i` and one `second_projection_i` per vertex.
pub fn write_untied_header(sink: &mut String, order: usize)
    ensures
        final(sink)@ == old(sink)@ + line("step"@, untied_header_cells(order as nat)),
{
    sink.append("step");
    push_cell(sink, "objective");
    push_cell(sink, "relative_update");
    push_numbered(sink, "first_projection_", 0, order);
    push_numbered(sink, "second_projection_", 0, order);
    push_newline(sink);
    proof {
        let fixed = seq!["objective"@, "relative_update"@];
        let firsts = numbered("first_projection_"@, 0, order as nat);
        let seconds = numbered("second_projection_"@, 0, order as nat);
        lemma_two_cells(fixed[0], fixed[1]);
        comma_led_splits(fixed, firsts);
        comma_led_splits(fixed + firsts, seconds);
        assert(sink@ =~= old(sink)@ + line("step"@, untied_header_cells(order as nat)));
    }
}

/// The texts of a weight-untied record's measurements.
#[derive(Clone, Debug)]
pub struct UntiedCells {
    pub objective: String,
    pub relative_update: String,
    pub first_projections: Vec<String>,
    pub second_projections: Vec<String>,
}

impl UntiedCells {
    /// There is one text per value of the record.
    pub open spec fn fits(self, record: UntiedStepRecord) -> bool {
        &&& self.first_projections@.len() == record.first_values().len()
        &&& self.second_projections@.len() == record.second_values().len()
    }

    /// The cells of the record's line after the step number.
    pub open spec fn cells(self) -> Seq<Seq<char>> {
        seq![self.objective@, self.relative_update@] + texts(self.first_projections@) + texts(
            self.second_projections@,
        )
    }
}

/// Appends a record's weight-untied line: its step number and its measurements
/// in the header's order, one cell per value.
pub fn write_untied_row(sink: &mut String, record: &UntiedStepRecord, cells: &UntiedCells)
    requires
        cells.fits(*record),
    ensures
        final(sink)@ == old(sink)@ + line(decimal(record.step_number()), cells.cells()),
{
    push_decimal(sink, record.step);
    push_cell(sink, cells.objective.as_str());
    push_cell(sink, cells.relative_update.as_str());
    push_cells(sink, cells.first_projections.as_slice());
    push_cells(sink, cells.second_projections.as_slice());
    push_newline(sink);
    proof {
        let fixed = seq![cells.objective@, cells.relative_update@];
        lemma_two_cells(fixed[0], fixed[1]);
        comma_led_splits(fixed, texts(cells.first_projections@));
        comma_led_splits(fixed + texts(cells.first_projections@), texts(cells.second_projections@));
        assert(sink@ =~= old(sink)@ + line(decimal(record.step_number()), cells.cells()));
    }
}

impl Logged for StepRecord {
    type Cells = TiedCells;

    open spec fn header(order: nat) -> Seq<Seq<char>> {
        tied_header_cells(order)
    }

    open spec fn row(cells: TiedCells) -> Seq<Seq<char>> {
        cells.cells()
    }

    open spec fn complete(&self, cells: TiedCells, order: nat) -> bool {
        &&& cells.fits(*self)
        &&& self.projection_values().len() == order
        &&& self.norm_values().len() == order
    }

    proof fn complete_rows_match_the_header(&self, cells: TiedCells, order: nat) {
    }

    fn log_header(sink: &mut String, order: usize) {
        write_tied_header(sink, order);
    }

    fn log_row(&self, sink: &mut String, cells: &TiedCells, order: usize) {
        write_tied_row(sink, self, cells);
    }
}

impl Logged for UntiedStepRecord {
    type Cells = UntiedCells;

    open spec fn header(order: nat) -> Seq<Seq<char>> {
        untied_header_cells(order)
    }

    open spec fn row(cells: UntiedCells) -> Seq<Seq<char>> {
        cells.cells()
    }

    open spec fn complete(&self, cells: UntiedCells, order: nat) -> bool {
        &&& cells.fits(*self)
        &&& self.first_values().len() == order
        &&& self.second_values().len() == order
    }

    proof fn complete_rows_match_the_header(&self, cells: UntiedCells, order: nat) {
    }

    fn log_header(sink: &mut String, order: usize) {
        write_untied_header(sink, order);
    }

    fn log_row(&self, sink: &mut String, cells: &UntiedCells, order: usize) {
        write_untied_row(sink, self, cells);
    }
}

/// The second seed lies the golden-ratio constant above the first, around the
/// end of the range.
pub proof fn second_seeds_lie_one_offset_on(seed: u64)
    ensures
        0 <= second_seed(seed as int) <= u64::MAX,
        second_seed(seed as int) == seed + 0x9E37_79B9_7F4A_7C15 || second_seed(seed as int)
            == seed + 0x9E37_79B9_7F4A_7C15 - 0x1_0000_0000_0000_0000,
{
}

/// Parameters are in order exactly where the dimension and the step budget are
/// not zero and the deviation, the step size and the tolerance are positive and
/// finite, and are otherwise refused for the first of these that fails.
pub proof fn parameters_are_refused_in_order(params: Params)
    ensures
        params.fault() is None <==> params.dimension > 0 && params.max_steps > 0 && 0
            < params.sigma.bits < 0x7FF0_0000_0000_0000 && 0 < params.learning_rate.bits
            < 0x7FF0_0000_0000_0000 && 0 < params.tolerance.bits < 0x7FF0_0000_0000_0000,
        params.dimension == 0 ==> params.fault() == Some(
            Error::InvalidDimension { dimension: 0 },
        ),
        params.dimension > 0 && params.max_steps == 0 ==> params.fault() == Some(
            Error::ZeroMaxSteps,
        ),
        params.dimension > 0 && params.max_steps > 0 && !(0 < params.sigma.bits
            < 0x7FF0_0000_0000_0000) ==> params.fault() == Some(
            Error::InvalidRunParameter { parameter: "sigma", value: params.sigma },
        ),
        params.dimension > 0 && params.max_steps > 0 && 0 < params.sigma.bits
            < 0x7FF0_0000_0000_0000 && !(0 < params.learning_rate.bits < 0x7FF0_0000_0000_0000)
            ==> params.fault() == Some(
            Error::InvalidRunParameter {
                parameter: "learning_rate",
                value: params.learning_rate,
            },
        ),
        params.dimension > 0 && params.max_steps > 0 && 0 < params.sigma.bits
            < 0x7FF0_0000_0000_0000 && 0 < params.learning_rate.bits < 0x7FF0_0000_0000_0000 && !(0
            < params.tolerance.bits < 0x7FF0_0000_0000_0000) ==> params.fault() == Some(
            Error::InvalidRunParameter { parameter: "tolerance", value: params.tolerance },
        ),
{
    comparisons_are_numeric(params.sigma, params.sigma);
    comparisons_are_numeric(params.learning_rate, params.learning_rate);
    comparisons_are_numeric(params.tolerance, params.tolerance);
}

/// A run starts from the quantities of its graph: the walk matrix and the terms
/// of the Laplacian are set by adjacency and by the numbers of neighbours.
pub proof fn runs_start_from_their_graph(
    adjacency: Seq<Seq<bool>>,
    system: Node2Vec,
    laplacian: Matrix<LaplacianEntry>,
    u: int,
    v: int,
)
    requires
        derived_from(adjacency, system, laplacian),
        adjacency.len() <= usize::MAX,
        0 <= u < adjacency.len(),
        0 <= v < adjacency.len(),
    ensures
        system.vertices() == adjacency.len(),
        system.walk_rows().len() == adjacency.len(),
        system.walk_rows()[u][v].numerator == if adjacency[u][v] {
            1int
        } else {
            0int
        },
        system.walk_rows()[u][v].denominator == set_int_range(0, adjacency.len() as int).filter(
            |w: int| adjacency[u][w],
        ).len(),
        laplacian@.len() == adjacency.len(),
        laplacian@[u].len() == adjacency.len(),
        laplacian@[u][v].diagonal <==> u == v,
        laplacian@[u][v].along == system.walk_rows()[u][v],
        laplacian@[u][v].against == system.walk_rows()[v][u],
{
    walks_step_evenly(adjacency, u, v);
    laplacian_entries_hold_their_terms(adjacency, u, v);
    assert(laplacian@[u][v] == laplacian_entry(adjacency, u, v));
    assert(system.walk_rows()[v][u] == walk_entry(adjacency, v, u));
}

/// The Fiedler-like range is made of whole groups. It is the only group where
/// there is one; and else it starts with the group below the top, takes in every
/// following group whose leading eigenvalue is no further than the spread from
/// the leading one of that first group, and ends before the first that is
/// further.
pub proof fn fiedler_ranges_end_at_the_spread(
    distances: Seq<Seq<Double>>,
    groups: Seq<Range<usize>>,
    spread: Double,
    range: Range<usize>,
)
    requires
        groups.len() > 0,
        is_fiedler_range(distances, groups, spread, range),
    ensures
        groups.len() == 1 ==> range == groups[0],
        groups.len() >= 2 ==> range.start == groups[1].start && exists|last: int|
            1 <= last < groups.len() && range.end == (#[trigger] groups[last]).end && (forall|k:
                int|
                2 <= k <= last ==> !distances[groups[1].start as int][(
                #[trigger] groups[k]).start as int].greater(spread)) && (last + 1 < groups.len()
                ==> distances[groups[1].start as int][groups[last + 1].start as int].greater(
                spread,
            )),
{
    if groups.len() >= 2 {
        let last = choose|last: int|
            #[trigger] fiedler_stops(distances, groups, spread, last) && range.end
                == groups[last].end;
        assert forall|k: int| 2 <= k <= last implies !distances[groups[1].start as int][(
        #[trigger] groups[k]).start as int].greater(spread) by {
            assert(fiedler_like(distances, groups, spread, k));
        }
        assert(range.end == groups[last].end);
    }
}

/// The weight-tied columns stand in their order: three fixed names, then a
/// projection and then a coefficient norm for every vertex; and a record's line
/// has its texts in the same places.
pub proof fn tied_columns_stand_in_order(order: nat, cells: TiedCells, i: int)
    ensures
        StepRecord::header(order) == tied_header_cells(order),
        StepRecord::header(order).len() == 3 + 2 * order,
        StepRecord::header(order)[0] == "objective"@,
        StepRecord::header(order)[1] == "relative_update"@,
        StepRecord::header(order)[2] == "observation8_residual"@,
        0 <= i < order ==> StepRecord::header(order)[3 + i] == "projection_"@ + decimal(i as nat),
        0 <= i < order ==> StepRecord::header(order)[3 + order + i] == "coefficient_norm_"@
            + decimal(i as nat),
        cells.cells() == StepRecord::row(cells),
        cells.cells().len() == 3 + cells.projections@.len() + cells.coefficient_norms@.len(),
        cells.cells()[0] == cells.objective@,
        cells.cells()[1] == cells.relative_update@,
        cells.cells()[2] == cells.observation8_residual@,
        0 <= i < cells.projections@.len() ==> cells.cells()[3 + i] == cells.projections@[i]@,
        0 <= i < cells.coefficient_norms@.len() ==> cells.cells()[3 + cells.projections@.len() + i]
            == cells.coefficient_norms@[i]@,
{
}

/// The weight-untied columns stand in their order: two fixed names, then a
/// projection of the first factor and then one of the second for every vertex;
/// and a record's line has its texts in the same places.
pub proof fn untied_columns_stand_in_order(order: nat, cells: UntiedCells, i: int)
    ensures
        UntiedStepRecord::header(order) == untied_header_cells(order),
        UntiedStepRecord::header(order).len() == 2 + 2 * order,
        UntiedStepRecord::header(order)[0] == "objective"@,
        UntiedStepRecord::header(order)[1] == "relative_update"@,
        0 <= i < order ==> UntiedStepRecord::header(order)[2 + i] == "first_projection_"@
            + decimal(i as nat),
        0 <= i < order ==> UntiedStepRecord::header(order)[2 + order + i] == "second_projection_"@
            + decimal(i as nat),
        cells.cells() == UntiedStepRecord::row(cells),
        cells.cells().len() == 2 + cells.first_projections@.len()
            + cells.second_projections@.len(),
        cells.cells()[0] == cells.objective@,
        cells.cells()[1] == cells.relative_update@,
        0 <= i < cells.first_projections@.len() ==> cells.cells()[2 + i]
            == cells.first_projections@[i]@,
        0 <= i < cells.second_projections@.len() ==> cells.cells()[2
            + cells.first_projections@.len() + i] == cells.second_projections@[i]@,
{
}

/// A line is complete exactly where the record has a value and the line a text
/// for each column of the header.
pub proof fn complete_lines_have_all_texts(
    tied: StepRecord,
    tied_cells: TiedCells,
    untied: UntiedStepRecord,
    untied_cells: UntiedCells,
    order: nat,
)
    ensures
        tied.complete(tied_cells, order) <==> tied.projection_values().len() == order
            && tied.norm_values().len() == order && tied_cells.projections@.len() == order
            && tied_cells.coefficient_norms@.len() == order,
        untied.complete(untied_cells, order) <==> untied.first_values().len() == order
            && untied.second_values().len() == order && untied_cells.first_projections@.len()
            == order && untied_cells.second_projections@.len() == order,
{
}

/// The criteria are those of the experiments: a degeneracy tolerance of 1e-9, a
/// spread of no more than the group below the top, and the golden-ratio offset
/// of the second seed.
pub proof fn criteria_have_their_values()
    ensures
        DEGENERACY_TOLERANCE == 0x3E11_2E0B_E826_D695,
        FIEDLER_SPREAD_FRACTION == 0,
        SECOND_FACTOR_OFFSET == 0x9E37_79B9_7F4A_7C15,
{
}

} // verus!
