//! Walk matrices and the arrangement of their spectra.
//!
//! [`transition`] builds the row-normalized walk matrix W = D^-1 A with exact
//! entries, and [`laplacian`] the terms of the random-walk Laplacian
//! L = (I - W) + (I - W)^T. [`Spectrum`] holds a symmetric eigendecomposition
//! in a deterministic order and with a deterministic sign for every
//! eigenvector.

use crate::counting::{
    count_true, lemma_count_bound, lemma_count_is_cardinality, true_indices,
};
use crate::double::Double;
use crate::error::Error;
use crate::graph::{degree_of, simple, Graph};
use crate::matrix::Matrix;
use crate::ranking::{descending_order, is_ranking, ranking, rankings_sort, ranks_before};
use std::ops::Range;
use vstd::prelude::*;
use vstd::set_lib::set_int_range;

verus! {

/// Magnitude above which an eigenvector component may fix that eigenvector's
/// sign: the bit pattern of 1e-9.
pub const SIGN_PIVOT_TOLERANCE: u64 = 0x3E11_2E0B_E826_D695;

/// A quotient of two counts, kept exact.
#[derive(Clone, Copy, Debug, PartialEq, Eq, Structural)]
pub struct Ratio {
    pub numerator: usize,
    pub denominator: usize,
}

/// Entry (`u`, `v`) of D^-1 A: one over the degree of `u` where the vertices
/// are adjacent, and zero elsewhere.
pub open spec fn walk_entry(adjacency: Seq<Seq<bool>>, u: int, v: int) -> Ratio {
    Ratio {
        numerator: if adjacency[u][v] {
            1
        } else {
            0
        },
        denominator: degree_of(adjacency, u) as usize,
    }
}

/// `v` is the first vertex without a neighbour.
pub open spec fn first_isolated(adjacency: Seq<Seq<bool>>, v: int) -> bool {
    &&& 0 <= v < adjacency.len()
    &&& degree_of(adjacency, v) == 0
    &&& forall|u: int| 0 <= u < v ==> #[trigger] degree_of(adjacency, u) > 0
}

/// Every vertex has a neighbour.
pub open spec fn no_isolated(adjacency: Seq<Seq<bool>>) -> bool {
    forall|u: int| 0 <= u < adjacency.len() ==> #[trigger] degree_of(adjacency, u) > 0
}

/// The row-normalized transition matrix W = D^-1 A of `graph`, or
/// [`Error::IsolatedVertex`] for the first vertex of degree zero, whose
/// inverse degree does not exist.
pub fn transition(graph: &Graph) -> (result: Result<Matrix<Ratio>, Error>)
    requires
        graph.wf(),
    ensures
        result is Ok <==> no_isolated(graph@),
        result matches Err(error) ==> error matches Error::IsolatedVertex { vertex }
            && first_isolated(graph@, vertex as int),
        result matches Ok(walk) ==> walk.wf() && walk.has_shape(graph@.len(), graph@.len())
            && forall|u: int, v: int|
            0 <= u < graph@.len() && 0 <= v < graph@.len() ==> #[trigger] walk@[u][v]
                == walk_entry(graph@, u, v),
{
    let order: usize = graph.order();
    let degrees = graph.degrees();
    let mut vertex: usize = 0;
    while vertex < order
        invariant
            graph.wf(),
            order == graph@.len(),
            vertex <= order,
            degrees@ == graph.degree_seq(),
            forall|u: int| 0 <= u < vertex ==> #[trigger] degree_of(graph@, u) > 0,
        decreases order - vertex,
    {
        if degrees[vertex] == 0 {
            assert(graph.degree_seq()[vertex as int] == degree_of(graph@, vertex as int));
            return Err(Error::IsolatedVertex { vertex });
        }
        assert(graph.degree_seq()[vertex as int] == degree_of(graph@, vertex as int));
        vertex += 1;
    }

    let adjacency = graph.adjacency();
    let mut rows: Vec<Vec<Ratio>> = Vec::new();
    let mut u: usize = 0;
    while u < order
        invariant
            graph.wf(),
            order == graph@.len(),
            degrees@ == graph.degree_seq(),
            adjacency@ == graph@,
            adjacency.wf(),
            adjacency.has_shape(order as nat, order as nat),
            u <= order,
            rows@.len() == u,
            forall|i: int| 0 <= i < u ==> (#[trigger] rows@[i])@.len() == order,
            forall|i: int, j: int|
                0 <= i < u && 0 <= j < order ==> #[trigger] rows@[i]@[j] == walk_entry(
                    graph@,
                    i,
                    j,
                ),
        decreases order - u,
    {
        let mut row: Vec<Ratio> = Vec::new();
        let mut v: usize = 0;
        assert(graph.degree_seq()[u as int] == degree_of(graph@, u as int));
        while v < order
            invariant
                graph.wf(),
                order == graph@.len(),
                degrees@ == graph.degree_seq(),
                degrees@[u as int] == degree_of(graph@, u as int),
                adjacency@ == graph@,
                adjacency.wf(),
                adjacency.has_shape(order as nat, order as nat),
                u < order,
                v <= order,
                row@.len() == v,
                forall|j: int|
                    0 <= j < v ==> #[trigger] row@[j] == walk_entry(graph@, u as int, j),
            decreases order - v,
        {
            let numerator: usize = if *adjacency.at(u, v) {
                1
            } else {
                0
            };
            row.push(Ratio { numerator, denominator: degrees[u] });
            v += 1;
        }
        rows.push(row);
        u += 1;
    }
    let walk = Matrix::from_equal_rows(order, rows);
    assert forall|i: int, j: int| 0 <= i < order && 0 <= j < order implies #[trigger] walk@[i][j]
        == walk_entry(graph@, i, j) by {
        assert(walk@[i] == rows@[i]@);
    }
    Ok(walk)
}

/// The terms of one entry of (I - W) + (I - W)^T: the identity's entry, W's
/// entry, and the entry of W's transpose.
#[derive(Clone, Copy, Debug, PartialEq, Eq, Structural)]
pub struct LaplacianEntry {
    /// Whether the entry lies on the diagonal, where the identity is one.
    pub diagonal: bool,
    /// W's entry.
    pub along: Ratio,
    /// The mirror entry of W.
    pub against: Ratio,
}

/// Entry (`u`, `v`) of the Laplacian.
pub open spec fn laplacian_entry(adjacency: Seq<Seq<bool>>, u: int, v: int) -> LaplacianEntry {
    LaplacianEntry {
        diagonal: u == v,
        along: walk_entry(adjacency, u, v),
        against: walk_entry(adjacency, v, u),
    }
}

impl LaplacianEntry {
    /// The common denominator of the entry's value.
    pub open spec fn scale(self) -> int {
        self.along.denominator * self.against.denominator
    }

    /// The entry's value times [`LaplacianEntry::scale`].
    pub open spec fn scaled_value(self) -> int {
        (if self.diagonal {
            2 * self.scale()
        } else {
            0
        }) - self.along.numerator * self.against.denominator - self.against.numerator
            * self.along.denominator
    }
}

/// The terms of the Laplacian L = (I - W) + (I - W)^T of `graph`, with
/// [`transition`]'s error where W does not exist.
pub fn laplacian(graph: &Graph) -> (result: Result<Matrix<LaplacianEntry>, Error>)
    requires
        graph.wf(),
    ensures
        result is Ok <==> no_isolated(graph@),
        result matches Err(error) ==> error matches Error::IsolatedVertex { vertex }
            && first_isolated(graph@, vertex as int),
        result matches Ok(terms) ==> terms.wf() && terms.has_shape(graph@.len(), graph@.len())
            && forall|u: int, v: int|
            0 <= u < graph@.len() && 0 <= v < graph@.len() ==> #[trigger] terms@[u][v]
                == laplacian_entry(graph@, u, v),
{
    let order: usize = graph.order();
    let walk = match transition(graph) {
        Ok(walk) => walk,
        Err(error) => {
            return Err(error);
        },
    };
    let mut rows: Vec<Vec<LaplacianEntry>> = Vec::new();
    let mut u: usize = 0;
    while u < order
        invariant
            order == graph@.len(),
            walk.wf(),
            walk.has_shape(order as nat, order as nat),
            forall|i: int, j: int|
                0 <= i < order && 0 <= j < order ==> #[trigger] walk@[i][j] == walk_entry(
                    graph@,
                    i,
                    j,
                ),
            u <= order,
            rows@.len() == u,
            forall|i: int| 0 <= i < u ==> (#[trigger] rows@[i])@.len() == order,
            forall|i: int, j: int|
                0 <= i < u && 0 <= j < order ==> #[trigger] rows@[i]@[j] == laplacian_entry(
                    graph@,
                    i,
                    j,
                ),
        decreases order - u,
    {
        let mut row: Vec<LaplacianEntry> = Vec::new();
        let mut v: usize = 0;
        while v < order
            invariant
                order == graph@.len(),
                walk.wf(),
                walk.has_shape(order as nat, order as nat),
                forall|i: int, j: int|
                    0 <= i < order && 0 <= j < order ==> #[trigger] walk@[i][j] == walk_entry(
                        graph@,
                        i,
                        j,
                    ),
                u < order,
                v <= order,
                row@.len() == v,
                forall|j: int|
                    0 <= j < v ==> #[trigger] row@[j] == laplacian_entry(graph@, u as int, j),
            decreases order - v,
        {
            row.push(
                LaplacianEntry {
                    diagonal: u == v,
                    along: *walk.at(u, v),
                    against: *walk.at(v, u),
                },
            );
            v += 1;
        }
        rows.push(row);
        u += 1;
    }
    let terms = Matrix::from_equal_rows(order, rows);
    assert forall|i: int, j: int| 0 <= i < order && 0 <= j < order implies #[trigger] terms@[i][j]
        == laplacian_entry(graph@, i, j) by {
        assert(terms@[i] == rows@[i]@);
    }
    Ok(terms)
}

/// The sum of the first `n` numerators of a row.
pub open spec fn numerator_total(row: Seq<Ratio>, n: int) -> nat
    decreases n,
{
    if n <= 0 {
        0
    } else {
        numerator_total(row, n - 1) + row[n - 1].numerator as nat
    }
}

proof fn lemma_numerators_count(adjacency: Seq<Seq<bool>>, u: int, n: int)
    requires
        0 <= n <= adjacency.len(),
    ensures
        numerator_total(
            Seq::new(adjacency.len(), |v: int| walk_entry(adjacency, u, v)),
            n,
        ) == count_true(adjacency[u], n),
    decreases n,
{
    if n > 0 {
        lemma_numerators_count(adjacency, u, n - 1);
    }
}

/// Each row of W sums to one: its entries share the vertex's degree as their
/// denominator, and their numerators add up to it.
pub proof fn transition_rows_sum_to_one(adjacency: Seq<Seq<bool>>, u: int)
    requires
        0 <= u < adjacency.len(),
    ensures
        numerator_total(
            Seq::new(adjacency.len(), |v: int| walk_entry(adjacency, u, v)),
            adjacency.len() as int,
        ) == degree_of(adjacency, u),
        forall|v: int|
            #[trigger] walk_entry(adjacency, u, v).denominator == degree_of(
                adjacency,
                u,
            ) as usize,
{
    lemma_numerators_count(adjacency, u, adjacency.len() as int);
}

/// The Laplacian is symmetric: mirrored entries have the same value, also
/// where W's do not.
pub proof fn laplacian_is_symmetric(adjacency: Seq<Seq<bool>>, u: int, v: int)
    ensures
        laplacian_entry(adjacency, u, v).scale() == laplacian_entry(adjacency, v, u).scale(),
        laplacian_entry(adjacency, u, v).scaled_value() == laplacian_entry(
            adjacency,
            v,
            u,
        ).scaled_value(),
{
    let (a, b) = (walk_entry(adjacency, u, v), walk_entry(adjacency, v, u));
    assert(a.denominator * b.denominator == b.denominator * a.denominator) by (nonlinear_arith);
}

/// W itself is symmetric exactly where every edge joins vertices of equal
/// degree.
pub proof fn walk_is_symmetric_on_equal_degrees(adjacency: Seq<Seq<bool>>, u: int, v: int)
    requires
        simple(adjacency),
        adjacency.len() <= usize::MAX,
        0 <= u < adjacency.len(),
        0 <= v < adjacency.len(),
        adjacency[u][v],
    ensures
        walk_entry(adjacency, u, v) == walk_entry(adjacency, v, u) <==> degree_of(adjacency, u)
            == degree_of(adjacency, v),
{
    crate::counting::lemma_count_bound(adjacency[u], adjacency.len() as int);
    crate::counting::lemma_count_bound(adjacency[v], adjacency.len() as int);
    assert(adjacency[v][u]);
}

/// What is wrong with entry (`r`, `c`) of a matrix and its mirror.
pub open spec fn pair_fault(matrix: Seq<Seq<Double>>, r: int, c: int) -> Option<Error> {
    if !matrix[r][c].finite() {
        Some(Error::NonFinite { row: r as usize, column: c as usize })
    } else if !matrix[c][r].finite() {
        Some(Error::NonFinite { row: c as usize, column: r as usize })
    } else if !matrix[r][c].same_value(matrix[c][r]) {
        Some(Error::NotSymmetric { row: r as usize, column: c as usize })
    } else {
        None
    }
}

/// The upper triangle up to (`r`, `c`), row by row, has no fault.
pub open spec fn faultless_before(matrix: Seq<Seq<Double>>, r: int, c: int) -> bool {
    forall|i: int, j: int|
        0 <= i <= j < matrix.len() && (i < r || (i == r && j < c)) ==> (#[trigger] pair_fault(
            matrix,
            i,
            j,
        )) is None
}

/// Every entry of the upper triangle and its mirror are finite and equal: for a
/// square matrix, that it is finite and symmetric.
pub open spec fn finite_symmetric(matrix: Seq<Seq<Double>>) -> bool {
    faultless_before(matrix, matrix.len() as int, 0)
}

/// Rejects a matrix that is not square, is empty, or has, in the upper
/// triangle read row by row, an entry that is not finite, whose mirror is not
/// finite, or that differs from its mirror.
pub fn check_symmetric(matrix: &Matrix<Double>) -> (result: Result<(), Error>)
    requires
        matrix.wf(),
    ensures
        matrix@.len() != matrix.width() ==> result == Err::<(), Error>(
            Error::NotSquare { rows: matrix@.len() as usize, columns: matrix.width() as usize },
        ),
        matrix@.len() == matrix.width() && matrix@.len() == 0 ==> result == Err::<(), Error>(
            Error::EmptyMatrix,
        ),
        matrix@.len() == matrix.width() && matrix@.len() > 0 ==> (result is Ok
            <==> finite_symmetric(matrix@)),
        matrix@.len() == matrix.width() && matrix@.len() > 0 ==> (result matches Err(error)
            ==> exists|r: int, c: int|
            0 <= r <= c < matrix@.len() && faultless_before(matrix@, r, c)
                && #[trigger] pair_fault(matrix@, r, c) == Some(error)),
{
    let rows: usize = matrix.nrows();
    let columns: usize = matrix.ncols();
    if rows != columns {
        return Err(Error::NotSquare { rows, columns });
    }
    if rows == 0 {
        return Err(Error::EmptyMatrix);
    }
    let mut row: usize = 0;
    while row < rows
        invariant
            matrix.wf(),
            matrix.has_shape(rows as nat, rows as nat),
            rows == columns,
            row <= rows,
            faultless_before(matrix@, row as int, 0),
        decreases rows - row,
    {
        let mut column: usize = row;
        while column < columns
            invariant
                matrix.wf(),
                matrix.has_shape(rows as nat, rows as nat),
                rows == columns,
                row < rows,
                row <= column <= columns,
                faultless_before(matrix@, row as int, column as int),
            decreases columns - column,
        {
            let entry: Double = *matrix.at(row, column);
            let mirror: Double = *matrix.at(column, row);
            let ghost fault = pair_fault(matrix@, row as int, column as int);
            if !entry.is_finite() {
                assert(fault is Some);
                return Err(Error::NonFinite { row, column });
            }
            if !mirror.is_finite() {
                assert(fault is Some);
                return Err(Error::NonFinite { row: column, column: row });
            }
            if !entry.equals(mirror) {
                assert(fault is Some);
                return Err(Error::NotSymmetric { row, column });
            }
            column += 1;
        }
        row += 1;
    }
    Ok(())
}

/// A symmetric eigendecomposition as a solver hands it over: the eigenvalues
/// in any order, eigenvector `j` in column `j`, and the absolute difference of
/// every two eigenvalues, which takes a rounding subtraction.
#[derive(Clone, Debug)]
pub struct Decomposition {
    pub eigenvalues: Vec<Double>,
    pub eigenvectors: Matrix<Double>,
    pub distances: Matrix<Double>,
}

/// The distances tell different values apart, as the absolute value of an
/// IEEE 754 subtraction does: a distance is above zero exactly where neither
/// value is a NaN and the two differ.
pub open spec fn distances_are_faithful(
    values: Seq<Double>,
    distances: Seq<Seq<Double>>,
) -> bool {
    forall|i: int, j: int|
        0 <= i < values.len() && 0 <= j < values.len() ==> (#[trigger] distances[i][j].greater(
            Double { bits: 0 },
        ) <==> !values[i].nan() && !values[j].nan() && values[i].rank() != values[j].rank())
}

impl Decomposition {
    /// The parts have the shapes of a decomposition of an `order` by `order`
    /// matrix, and the distances are those of the eigenvalues as far as telling
    /// them apart goes.
    pub open spec fn fits(self, order: nat) -> bool {
        &&& self.eigenvalues@.len() == order
        &&& self.eigenvectors.wf()
        &&& self.eigenvectors.has_shape(order, order)
        &&& self.distances.wf()
        &&& self.distances.has_shape(order, order)
        &&& distances_are_faithful(self.eigenvalues@, self.distances@)
    }
}

/// Column `j` of a matrix.
pub open spec fn column_of(matrix: Seq<Seq<Double>>, j: int) -> Seq<Double> {
    Seq::new(matrix.len(), |i: int| matrix[i][j])
}

/// The component may fix a sign.
pub open spec fn significant(component: Double) -> bool {
    component.absolute().greater(Double { bits: SIGN_PIVOT_TOLERANCE })
}

/// Component `i` is the first that may fix the column's sign.
pub open spec fn is_pivot(column: Seq<Double>, i: int) -> bool {
    &&& 0 <= i < column.len()
    &&& significant(column[i])
    &&& forall|k: int| 0 <= k < i ==> !significant(#[trigger] column[k])
}

/// The column has a pivot, and it is negative.
pub open spec fn pivot_negative(column: Seq<Double>) -> bool {
    exists|i: int| #[trigger] is_pivot(column, i) && column[i].rank() < 0
}

/// The column with every component negated.
pub open spec fn flipped(column: Seq<Double>) -> Seq<Double> {
    Seq::new(column.len(), |i: int| column[i].negated())
}

/// The column with the sign that makes its pivot positive.
pub open spec fn sign_fixed(column: Seq<Double>) -> Seq<Double> {
    if pivot_negative(column) {
        flipped(column)
    } else {
        column
    }
}

proof fn lemma_flip_keeps_pivots(column: Seq<Double>, i: int)
    ensures
        is_pivot(flipped(column), i) == is_pivot(column, i),
{
    assert forall|k: int| 0 <= k < column.len() implies significant(#[trigger] flipped(column)[k])
        == significant(column[k]) by {
        crate::double::negation_is_an_involution(column[k]);
    }
    if is_pivot(column, i) {
        assert forall|k: int| 0 <= k < i implies !significant(#[trigger] flipped(column)[k]) by {
            assert(!significant(column[k]));
        }
    }
    if is_pivot(flipped(column), i) {
        assert forall|k: int| 0 <= k < i implies !significant(#[trigger] column[k]) by {
            assert(!significant(flipped(column)[k]));
        }
    }
}

proof fn lemma_one_pivot(column: Seq<Double>, i: int, j: int)
    requires
        is_pivot(column, i),
        is_pivot(column, j),
    ensures
        i == j,
{
    if i < j {
        assert(!significant(column[i]));
    } else if j < i {
        assert(!significant(column[j]));
    }
}

/// After the sign is fixed the column's pivot, where it has one, is positive.
pub proof fn pivots_are_positive(column: Seq<Double>, i: int)
    requires
        is_pivot(sign_fixed(column), i),
    ensures
        sign_fixed(column)[i].rank() > 0,
{
    lemma_flip_keeps_pivots(column, i);
    crate::double::negation_is_an_involution(column[i]);
    if pivot_negative(column) {
        let j = choose|j: int| #[trigger] is_pivot(column, j) && column[j].rank() < 0;
        lemma_one_pivot(column, i, j);
    } else {
        assert(is_pivot(column, i));
        assert(column[i].rank() != 0);
    }
}

/// The sign convention is canonical: a column that has a pivot and its negation
/// are brought to the same signs, and fixing a sign twice changes nothing.
pub proof fn sign_convention_is_canonical(column: Seq<Double>, i: int)
    requires
        is_pivot(column, i),
    ensures
        sign_fixed(flipped(column)) == sign_fixed(column),
        sign_fixed(sign_fixed(column)) == sign_fixed(column),
{
    let other = flipped(column);
    lemma_flip_keeps_pivots(column, i);
    crate::double::negation_is_an_involution(column[i]);
    assert(column[i].rank() != 0);
    assert forall|k: int| 0 <= k < column.len() implies #[trigger] flipped(other)[k]
        == column[k] by {
        crate::double::negation_is_an_involution(column[k]);
    }
    assert(flipped(other) =~= column);
    if pivot_negative(column) {
        let j = choose|j: int| #[trigger] is_pivot(column, j) && column[j].rank() < 0;
        lemma_one_pivot(column, i, j);
    }
    if pivot_negative(other) {
        let j = choose|j: int| #[trigger] is_pivot(other, j) && other[j].rank() < 0;
        lemma_one_pivot(other, i, j);
    }
    assert(is_pivot(other, i));
}

/// `end` closes a group: it is the last index, or the eigenvalues on its two
/// sides differ by more than the tolerance.
pub open spec fn group_break(distances: Seq<Seq<Double>>, tolerance: Double, end: int) -> bool {
    end == distances.len() || distances[end - 1][end].greater(tolerance)
}

/// Group `k` starts where the one before it ends.
pub open spec fn continues(groups: Seq<Range<usize>>, k: int) -> bool {
    groups[k].start == groups[k - 1].end
}

/// `groups` splits the indices into maximal runs: consecutive, not empty,
/// closed by a break each and without a break inside.
pub open spec fn is_grouping(
    distances: Seq<Seq<Double>>,
    tolerance: Double,
    groups: Seq<Range<usize>>,
) -> bool {
    &&& groups.len() > 0
    &&& groups[0].start == 0
    &&& groups.last().end == distances.len()
    &&& forall|k: int|
        0 <= k < groups.len() ==> (#[trigger] groups[k]).start < groups[k].end && groups[k].end
            <= distances.len() && group_break(distances, tolerance, groups[k].end as int)
    &&& forall|k: int| 1 <= k < groups.len() ==> #[trigger] continues(groups, k)
    &&& forall|k: int, end: int|
        0 <= k < groups.len() && (#[trigger] groups[k]).start < end < groups[k].end
            ==> !#[trigger] group_break(distances, tolerance, end)
}

/// The maximal runs of close eigenvalues.
pub open spec fn grouping(
    distances: Seq<Seq<Double>>,
    tolerance: Double,
) -> Seq<Range<usize>> {
    choose|groups: Seq<Range<usize>>| is_grouping(distances, tolerance, groups)
}

/// Two groupings agree on their first `k` groups.
proof fn lemma_groupings_agree(
    distances: Seq<Seq<Double>>,
    tolerance: Double,
    left: Seq<Range<usize>>,
    right: Seq<Range<usize>>,
    k: int,
)
    requires
        is_grouping(distances, tolerance, left),
        is_grouping(distances, tolerance, right),
        0 <= k <= left.len(),
    ensures
        k <= right.len(),
        forall|i: int| 0 <= i < k ==> #[trigger] left[i] == right[i],
    decreases k,
{
    if k > 0 {
        lemma_groupings_agree(distances, tolerance, left, right, k - 1);
        let i = k - 1;
        if i > 0 {
            assert(left[i - 1] == right[i - 1]);
            assert(continues(left, i));
            assert(left[i].start < left[i].end);
            if i == right.len() {
                assert(right.last().end == distances.len());
            }
            assert(continues(right, i));
        }
        assert(left[i].start == right[i].start);
        if left[i].end < right[i].end {
            assert(!group_break(distances, tolerance, left[i].end as int));
        }
        if right[i].end < left[i].end {
            assert(!group_break(distances, tolerance, right[i].end as int));
        }
    }
}

/// The distances and the tolerance determine the groups, and [`grouping`] is
/// them.
pub proof fn grouping_is_unique(
    distances: Seq<Seq<Double>>,
    tolerance: Double,
    groups: Seq<Range<usize>>,
)
    requires
        is_grouping(distances, tolerance, groups),
    ensures
        groups == grouping(distances, tolerance),
{
    let chosen = grouping(distances, tolerance);
    assert(is_grouping(distances, tolerance, chosen));
    lemma_groupings_agree(distances, tolerance, groups, chosen, groups.len() as int);
    lemma_groupings_agree(distances, tolerance, chosen, groups, chosen.len() as int);
    assert(groups =~= chosen);
}

/// The eigendecomposition of a symmetric matrix in a deterministic order and
/// with deterministic signs.
///
/// Eigenvalues descend; eigenvector `j` is column `j` and has a positive first
/// component of magnitude above [`SIGN_PIVOT_TOLERANCE`]. Within a group of
/// equal eigenvalues only the span of the columns is determined.
#[derive(Clone, Debug)]
pub struct Spectrum {
    eigenvalues: Vec<Double>,
    eigenvectors: Matrix<Double>,
    distances: Matrix<Double>,
}

impl Spectrum {
    /// The eigenvalues, in the stored order.
    pub closed spec fn values(self) -> Seq<Double> {
        self.eigenvalues@
    }

    /// The rows of the eigenvector matrix.
    pub closed spec fn vectors(self) -> Seq<Seq<Double>> {
        self.eigenvectors@
    }

    /// The absolute difference of every two eigenvalues, in the stored order.
    pub closed spec fn gaps(self) -> Seq<Seq<Double>> {
        self.distances@
    }

    /// The matrices are square, one row per eigenvalue.
    pub closed spec fn shaped(self) -> bool {
        &&& self.eigenvectors.wf()
        &&& self.eigenvectors.has_shape(self.eigenvalues@.len(), self.eigenvalues@.len())
        &&& self.distances.wf()
        &&& self.distances.has_shape(self.eigenvalues@.len(), self.eigenvalues@.len())
        &&& self.eigenvalues@.len() <= usize::MAX
    }

    /// The invariant: at least one eigenpair, matching shapes, distances that
    /// tell the eigenvalues apart, eigenvalues that descend, and eigenvectors
    /// with positive pivots.
    pub open spec fn wf(self) -> bool {
        &&& self.shaped()
        &&& self.values().len() >= 1
        &&& self.vectors().len() == self.values().len()
        &&& self.gaps().len() == self.values().len()
        &&& distances_are_faithful(self.values(), self.gaps())
        &&& forall|i: int, j: int|
            0 <= i <= j < self.values().len() ==> (#[trigger] self.values()[i]).total_rank()
                >= (#[trigger] self.values()[j]).total_rank()
        &&& forall|i: int, j: int|
            0 <= j < self.values().len() && #[trigger] is_pivot(column_of(self.vectors(), j), i)
                ==> column_of(self.vectors(), j)[i].rank() > 0
    }

    /// The eigenpairs are those of the decomposition by descending eigenvalue,
    /// ties in the given order, and every eigenvector has the sign that makes
    /// its pivot positive. The distances follow the eigenvalues.
    pub open spec fn arranges(self, decomposition: Decomposition) -> bool {
        let order = ranking(decomposition.eigenvalues@);
        &&& is_ranking(decomposition.eigenvalues@, order)
        &&& forall|j: int|
            0 <= j < self.values().len() ==> #[trigger] self.values()[j]
                == decomposition.eigenvalues@[order[j] as int]
        &&& forall|j: int|
            0 <= j < self.values().len() ==> #[trigger] column_of(self.vectors(), j) == sign_fixed(
                column_of(decomposition.eigenvectors@, order[j] as int),
            )
        &&& forall|i: int, j: int|
            0 <= i < self.values().len() && 0 <= j < self.values().len()
                ==> #[trigger] self.gaps()[i][j]
                == decomposition.distances@[order[i] as int][order[j] as int]
    }

    /// Checks `symmetric` as [`check_symmetric`] does, then arranges its
    /// decomposition: eigenpairs by descending eigenvalue, ties in the solver's
    /// order, and every eigenvector with the sign that makes its pivot
    /// positive.
    pub fn new(symmetric: &Matrix<Double>, decomposition: &Decomposition) -> (result: Result<
        Spectrum,
        Error,
    >)
        requires
            symmetric.wf(),
            symmetric@.len() == symmetric.width() && symmetric@.len() > 0 && finite_symmetric(
                symmetric@,
            ) ==> decomposition.fits(symmetric@.len()),
        ensures
            symmetric@.len() != symmetric.width() ==> result == Err::<Spectrum, Error>(
                Error::NotSquare {
                    rows: symmetric@.len() as usize,
                    columns: symmetric.width() as usize,
                },
            ),
            symmetric@.len() == symmetric.width() && symmetric@.len() == 0 ==> result == Err::<
                Spectrum,
                Error,
            >(Error::EmptyMatrix),
            symmetric@.len() == symmetric.width() && symmetric@.len() > 0 ==> (result is Ok
                <==> finite_symmetric(symmetric@)),
            symmetric@.len() == symmetric.width() && symmetric@.len() > 0 ==> (result matches Err(
                error,
            ) ==> exists|r: int, c: int|
                0 <= r <= c < symmetric@.len() && faultless_before(symmetric@, r, c)
                    && #[trigger] pair_fault(symmetric@, r, c) == Some(error)),
            result matches Ok(spectrum) ==> spectrum.wf() && spectrum.values().len()
                == symmetric@.len() && spectrum.arranges(*decomposition),
    {
        if let Err(error) = check_symmetric(symmetric) {
            return Err(error);
        }
        let size: usize = symmetric.nrows();
        let order: Vec<usize> = descending_order(decomposition.eigenvalues.as_slice());
        let ghost ranked = order@;

        let mut eigenvalues: Vec<Double> = Vec::new();
        let mut flips: Vec<bool> = Vec::new();
        let mut j: usize = 0;
        while j < size
            invariant
                j <= size,
                decomposition.fits(size as nat),
                is_ranking(decomposition.eigenvalues@, ranked),
                ranked == order@,
                eigenvalues@.len() == j,
                flips@.len() == j,
                forall|k: int|
                    0 <= k < j ==> #[trigger] eigenvalues@[k]
                        == decomposition.eigenvalues@[ranked[k] as int],
                forall|k: int|
                    0 <= k < j ==> #[trigger] flips@[k] == pivot_negative(
                        column_of(decomposition.eigenvectors@, ranked[k] as int),
                    ),
            decreases size - j,
        {
            let source: usize = order[j];
            eigenvalues.push(decomposition.eigenvalues[source]);
            flips.push(needs_flip(&decomposition.eigenvectors, source));
            j += 1;
        }

        let mut vector_rows: Vec<Vec<Double>> = Vec::new();
        let mut distance_rows: Vec<Vec<Double>> = Vec::new();
        let mut i: usize = 0;
        while i < size
            invariant
                i <= size,
                decomposition.fits(size as nat),
                is_ranking(decomposition.eigenvalues@, ranked),
                ranked == order@,
                flips@.len() == size,
                vector_rows@.len() == i,
                distance_rows@.len() == i,
                forall|r: int| 0 <= r < i ==> (#[trigger] vector_rows@[r])@.len() == size,
                forall|r: int| 0 <= r < i ==> (#[trigger] distance_rows@[r])@.len() == size,
                forall|r: int, k: int|
                    0 <= r < i && 0 <= k < size ==> #[trigger] vector_rows@[r]@[k] == (
                    if flips@[k] {
                        decomposition.eigenvectors@[r][ranked[k] as int].negated()
                    } else {
                        decomposition.eigenvectors@[r][ranked[k] as int]
                    }),
                forall|r: int, k: int|
                    0 <= r < i && 0 <= k < size ==> #[trigger] distance_rows@[r]@[k]
                        == decomposition.distances@[ranked[r] as int][ranked[k] as int],
            decreases size - i,
        {
            let mut vector_row: Vec<Double> = Vec::new();
            let mut distance_row: Vec<Double> = Vec::new();
            let mut k: usize = 0;
            while k < size
                invariant
                    i < size,
                    k <= size,
                    decomposition.fits(size as nat),
                    is_ranking(decomposition.eigenvalues@, ranked),
                    ranked == order@,
                    flips@.len() == size,
                    vector_row@.len() == k,
                    distance_row@.len() == k,
                    forall|m: int|
                        0 <= m < k ==> #[trigger] vector_row@[m] == (if flips@[m] {
                            decomposition.eigenvectors@[i as int][ranked[m] as int].negated()
                        } else {
                            decomposition.eigenvectors@[i as int][ranked[m] as int]
                        }),
                    forall|m: int|
                        0 <= m < k ==> #[trigger] distance_row@[m]
                            == decomposition.distances@[ranked[i as int] as int][ranked[m] as int],
                decreases size - k,
            {
                let component: Double = *decomposition.eigenvectors.at(i, order[k]);
                if flips[k] {
                    vector_row.push(component.neg());
                } else {
                    vector_row.push(component);
                }
                distance_row.push(*decomposition.distances.at(order[i], order[k]));
                k += 1;
            }
            vector_rows.push(vector_row);
            distance_rows.push(distance_row);
            i += 1;
        }
        let eigenvectors = Matrix::from_equal_rows(size, vector_rows);
        let distances = Matrix::from_equal_rows(size, distance_rows);
        let spectrum = Spectrum { eigenvalues, eigenvectors, distances };
        proof {
            assert forall|r: int, k: int|
                0 <= r < size && 0 <= k < size implies (#[trigger] spectrum.gaps()[r][k].greater(
                Double { bits: 0 },
            ) <==> !spectrum.values()[r].nan() && !spectrum.values()[k].nan()
                && spectrum.values()[r].rank() != spectrum.values()[k].rank()) by {
                assert(spectrum.gaps()[r] == distance_rows@[r]@);
                let given = decomposition.distances@[ranked[r] as int][ranked[k] as int];
                assert(distance_rows@[r]@[k] == given);
                assert(given.greater(Double { bits: 0 }) <==> !spectrum.values()[r].nan()
                    && !spectrum.values()[k].nan() && spectrum.values()[r].rank()
                    != spectrum.values()[k].rank());
            }
            assert forall|r: int, k: int| 0 <= r < size && 0 <= k < size implies #[trigger] spectrum.gaps()[r][k]
                == decomposition.distances@[ranked[r] as int][ranked[k] as int] by {
                assert(spectrum.gaps()[r] == distance_rows@[r]@);
            }
            assert forall|k: int| 0 <= k < size implies #[trigger] column_of(
                spectrum.vectors(),
                k,
            ) == sign_fixed(column_of(decomposition.eigenvectors@, ranked[k] as int)) by {
                let made = column_of(spectrum.vectors(), k);
                let given = column_of(decomposition.eigenvectors@, ranked[k] as int);
                assert(flips@[k] == pivot_negative(given));
                assert forall|r: int| 0 <= r < size implies #[trigger] made[r] == sign_fixed(
                    given,
                )[r] by {
                    assert(spectrum.vectors()[r] == vector_rows@[r]@);
                    assert(vector_rows@[r]@[k] == made[r]);
                }
                assert(made =~= sign_fixed(given));
            }
            assert forall|r: int, k: int|
                0 <= k < size && #[trigger] is_pivot(
                    column_of(spectrum.vectors(), k),
                    r,
                ) implies column_of(spectrum.vectors(), k)[r].rank() > 0 by {
                pivots_are_positive(
                    column_of(decomposition.eigenvectors@, ranked[k] as int),
                    r,
                );
            }
            assert forall|a: int, b: int| 0 <= a <= b < size implies (
            #[trigger] spectrum.values()[a]).total_rank() >= (
            #[trigger] spectrum.values()[b]).total_rank() by {
                if a < b {
                    assert(ranks_before(
                        decomposition.eigenvalues@,
                        ranked[a] as int,
                        ranked[b] as int,
                    ));
                }
            }
        }
        Ok(spectrum)
    }

    /// The eigenvalues, descending.
    pub fn eigenvalues(&self) -> (values: &[Double])
        ensures
            values@ == self.values(),
    {
        self.eigenvalues.as_slice()
    }

    /// The eigenvectors, column `j` matching eigenvalue `j`.
    pub fn eigenvectors(&self) -> (vectors: &Matrix<Double>)
        requires
            self.wf(),
        ensures
            vectors@ == self.vectors(),
            vectors.wf(),
            vectors.has_shape(self.values().len(), self.values().len()),
    {
        &self.eigenvectors
    }

    /// The number of eigenpairs, which is the decomposed matrix's dimension.
    pub fn order(&self) -> (order: usize)
        ensures
            order == self.values().len(),
    {
        self.eigenvalues.len()
    }

    /// The number of eigenpairs, under the name that collections use.
    pub fn len(&self) -> (count: usize)
        ensures
            count == self.values().len(),
    {
        self.order()
    }

    /// The absolute difference of eigenvalues `i` and `j`.
    pub fn distance(&self, i: usize, j: usize) -> (gap: Double)
        requires
            self.wf(),
            i < self.values().len(),
            j < self.values().len(),
        ensures
            gap == self.gaps()[i as int][j as int],
    {
        *self.distances.at(i, j)
    }

    /// Splits the indices into maximal runs whose adjacent eigenvalues differ
    /// by at most `gap_tolerance`, in the stored descending order.
    pub fn degenerate_groups(&self, gap_tolerance: Double) -> (groups: Vec<Range<usize>>)
        requires
            self.wf(),
        ensures
            is_grouping(self.gaps(), gap_tolerance, groups@),
            groups@ == grouping(self.gaps(), gap_tolerance),
    {
        let order: usize = self.order();
        let mut groups: Vec<Range<usize>> = Vec::new();
        let mut start: usize = 0;
        let mut last: usize = 0;
        while last < order
            invariant
                self.wf(),
                order == self.values().len(),
                start <= last <= order,
                groups@.len() == 0 ==> start == 0,
                groups@.len() > 0 ==> groups@[0].start == 0 && groups@.last().end == start,
                last == order ==> start == order && groups@.len() > 0,
                forall|k: int|
                    0 <= k < groups@.len() ==> (#[trigger] groups@[k]).start < groups@[k].end
                        && groups@[k].end <= last && group_break(
                        self.gaps(),
                        gap_tolerance,
                        groups@[k].end as int,
                    ),
                forall|k: int| 1 <= k < groups@.len() ==> #[trigger] continues(groups@, k),
                forall|k: int, end: int|
                    0 <= k < groups@.len() && (#[trigger] groups@[k]).start < end
                        < groups@[k].end ==> !#[trigger] group_break(
                        self.gaps(),
                        gap_tolerance,
                        end,
                    ),
                last < order ==> forall|end: int|
                    start < end <= last ==> !#[trigger] group_break(
                        self.gaps(),
                        gap_tolerance,
                        end,
                    ),
            decreases order - last,
        {
            let end: usize = last + 1;
            if end == order || self.distance(last, end).exceeds(gap_tolerance) {
                assert(group_break(self.gaps(), gap_tolerance, end as int));
                let ghost before = groups@;
                groups.push(start..end);
                assert forall|k: int| 1 <= k < groups@.len() implies #[trigger] continues(
                    groups@,
                    k,
                ) by {
                    if k < before.len() {
                        assert(continues(before, k));
                    }
                }
                start = end;
            }
            last = end;
        }
        proof {
            grouping_is_unique(self.gaps(), gap_tolerance, groups@);
        }
        groups
    }
}

proof fn lemma_index_in_group(
    distances: Seq<Seq<Double>>,
    tolerance: Double,
    groups: Seq<Range<usize>>,
    k: int,
    i: int,
) -> (found: int)
    requires
        is_grouping(distances, tolerance, groups),
        0 <= k < groups.len(),
        0 <= i < groups[k].end,
    ensures
        0 <= found <= k,
        groups[found].start <= i < groups[found].end,
    decreases k,
{
    if groups[k].start <= i {
        k
    } else {
        assert(k > 0);
        assert(continues(groups, k));
        lemma_index_in_group(distances, tolerance, groups, k - 1, i)
    }
}

/// Every index lies in one of the groups.
pub proof fn groups_cover_the_spectrum(
    distances: Seq<Seq<Double>>,
    tolerance: Double,
    groups: Seq<Range<usize>>,
    i: int,
)
    requires
        is_grouping(distances, tolerance, groups),
        0 <= i < distances.len(),
    ensures
        exists|k: int|
            0 <= k < groups.len() && (#[trigger] groups[k]).start <= i < groups[k].end,
{
    let k = lemma_index_in_group(distances, tolerance, groups, groups.len() - 1, i);
    assert(groups[k].start <= i < groups[k].end);
}

/// Neighbouring eigenvalues that are equal share a group, whatever the
/// tolerance from zero on.
pub proof fn equal_neighbours_share_a_group(
    spectrum: Spectrum,
    tolerance: Double,
    groups: Seq<Range<usize>>,
    i: int,
)
    requires
        spectrum.wf(),
        is_grouping(spectrum.gaps(), tolerance, groups),
        tolerance.greater_or_same(Double { bits: 0 }),
        0 < i < spectrum.values().len(),
        spectrum.values()[i - 1].same_value(spectrum.values()[i]),
    ensures
        exists|k: int|
            0 <= k < groups.len() && (#[trigger] groups[k]).start <= i - 1 && i < groups[k].end,
{
    let (distances, zero) = (spectrum.gaps(), Double { bits: 0 });
    let k = lemma_index_in_group(distances, tolerance, groups, groups.len() - 1, i - 1);
    assert(!distances[i - 1][i].greater(zero));
    if groups[k].end == i {
        assert(group_break(distances, tolerance, groups[k].end as int));
        assert(distances[i - 1][i].greater(tolerance));
    }
    assert(groups[k].start <= i - 1 && i < groups[k].end);
}

/// Whether column `j` has a negative pivot.
fn needs_flip(vectors: &Matrix<Double>, j: usize) -> (answer: bool)
    requires
        vectors.wf(),
        j < vectors.width(),
    ensures
        answer == pivot_negative(column_of(vectors@, j as int)),
{
    let ghost column = column_of(vectors@, j as int);
    let tolerance = Double::from_bits(SIGN_PIVOT_TOLERANCE);
    let mut i: usize = 0;
    while i < vectors.nrows()
        invariant
            vectors.wf(),
            j < vectors.width(),
            i <= vectors@.len(),
            column == column_of(vectors@, j as int),
            tolerance.bits == SIGN_PIVOT_TOLERANCE,
            forall|k: int| 0 <= k < i ==> !significant(#[trigger] column[k]),
        decreases vectors@.len() - i,
    {
        let component: Double = *vectors.at(i, j);
        assert(column[i as int] == component);
        if component.abs().exceeds(tolerance) {
            let negative: bool = Double::from_bits(0).exceeds(component);
            proof {
                assert(is_pivot(column, i as int));
                if pivot_negative(column) {
                    let k = choose|k: int| #[trigger] is_pivot(column, k) && column[k].rank() < 0;
                    lemma_one_pivot(column, i as int, k);
                }
            }
            return negative;
        }
        i += 1;
    }
    false
}

/// Eigenvalues without a NaN descend as numbers.
pub proof fn eigenvalues_descend(spectrum: Spectrum, i: int, j: int)
    requires
        spectrum.wf(),
        0 <= i <= j < spectrum.values().len(),
        !spectrum.values()[i].nan(),
        !spectrum.values()[j].nan(),
    ensures
        spectrum.values()[i].greater_or_same(spectrum.values()[j]),
{
    let (high, low) = (spectrum.values()[i], spectrum.values()[j]);
    assert(high.total_rank() >= low.total_rank());
}

/// Arranging equal decompositions gives the same eigenvalues, eigenvectors and
/// distances, bit for bit.
pub proof fn arrangements_are_reproducible(
    first: Spectrum,
    second: Spectrum,
    given: Decomposition,
    again: Decomposition,
)
    requires
        first.wf(),
        second.wf(),
        first.values().len() == second.values().len(),
        first.arranges(given),
        second.arranges(again),
        given.eigenvalues@ == again.eigenvalues@,
        given.eigenvectors@ == again.eigenvectors@,
        given.distances@ == again.distances@,
    ensures
        first.values() == second.values(),
        first.vectors() == second.vectors(),
        first.gaps() == second.gaps(),
{
    let size = first.values().len();
    assert(first.values() =~= second.values());
    assert forall|r: int| 0 <= r < size implies #[trigger] first.vectors()[r]
        == second.vectors()[r] by {
        assert forall|c: int| 0 <= c < size implies first.vectors()[r][c]
            == second.vectors()[r][c] by {
            assert(column_of(first.vectors(), c)[r] == column_of(second.vectors(), c)[r]);
        }
        assert(first.vectors()[r] =~= second.vectors()[r]);
    }
    assert(first.vectors() =~= second.vectors());
    assert forall|r: int| 0 <= r < size implies #[trigger] first.gaps()[r]
        == second.gaps()[r] by {
        assert(first.gaps()[r] =~= second.gaps()[r]);
    }
    assert(first.gaps() =~= second.gaps());
}

/// A walk steps to each neighbour with the same share: an entry of W is one over
/// the number of the vertex's neighbours where the two are adjacent, and zero
/// over it elsewhere.
pub proof fn walks_step_evenly(adjacency: Seq<Seq<bool>>, u: int, v: int)
    requires
        adjacency.len() <= usize::MAX,
        0 <= u < adjacency.len(),
    ensures
        walk_entry(adjacency, u, v).denominator == set_int_range(
            0,
            adjacency.len() as int,
        ).filter(|w: int| adjacency[u][w]).len(),
        adjacency[u][v] ==> walk_entry(adjacency, u, v).numerator == 1,
        !adjacency[u][v] ==> walk_entry(adjacency, u, v).numerator == 0,
{
    let n = adjacency.len() as int;
    lemma_count_bound(adjacency[u], n);
    lemma_count_is_cardinality(adjacency[u], n);
    assert(true_indices(adjacency[u], n) =~= set_int_range(0, n).filter(
        |w: int| adjacency[u][w],
    ));
}

/// An entry of the Laplacian holds the identity's entry, W's entry and the
/// mirror entry of W: the diagonal is where the indices agree, the numerators
/// are set by adjacency, and the denominators are the two vertices' neighbour
/// counts.
pub proof fn laplacian_entries_hold_their_terms(adjacency: Seq<Seq<bool>>, u: int, v: int)
    requires
        adjacency.len() <= usize::MAX,
        0 <= u < adjacency.len(),
        0 <= v < adjacency.len(),
    ensures
        laplacian_entry(adjacency, u, v).diagonal <==> u == v,
        laplacian_entry(adjacency, u, v).along.numerator == if adjacency[u][v] {
            1int
        } else {
            0int
        },
        laplacian_entry(adjacency, u, v).along.denominator == set_int_range(
            0,
            adjacency.len() as int,
        ).filter(|w: int| adjacency[u][w]).len(),
        laplacian_entry(adjacency, u, v).against.numerator == if adjacency[v][u] {
            1int
        } else {
            0int
        },
        laplacian_entry(adjacency, u, v).against.denominator == set_int_range(
            0,
            adjacency.len() as int,
        ).filter(|w: int| adjacency[v][w]).len(),
{
    walks_step_evenly(adjacency, u, v);
    walks_step_evenly(adjacency, v, u);
}

proof fn lemma_degree_is_positive(adjacency: Seq<Seq<bool>>, u: int)
    ensures
        degree_of(adjacency, u) > 0 <==> exists|w: int|
            0 <= w < adjacency.len() && #[trigger] adjacency[u][w],
{
    let n = adjacency.len() as int;
    if exists|w: int| 0 <= w < adjacency.len() && #[trigger] adjacency[u][w] {
        let w = choose|w: int| 0 <= w < adjacency.len() && #[trigger] adjacency[u][w];
        assert(count_true(adjacency[u], w + 1) >= 1);
        crate::graph::lemma_count_grows(adjacency[u], w + 1, n);
    } else {
        assert forall|w: int| 0 <= w < n implies !adjacency[u][w] by {}
        crate::counting::lemma_count_none(adjacency[u], n);
    }
}

/// No vertex is isolated exactly where every vertex has a neighbour, and the
/// first isolated vertex is the first without one.
pub proof fn isolated_vertices_have_no_neighbour(adjacency: Seq<Seq<bool>>, v: int)
    requires
        forall|u: int|
            0 <= u < adjacency.len() ==> (#[trigger] adjacency[u]).len() == adjacency.len(),
    ensures
        no_isolated(adjacency) <==> forall|u: int|
            0 <= u < adjacency.len() ==> (#[trigger] adjacency[u]).contains(true),
        first_isolated(adjacency, v) <==> 0 <= v < adjacency.len() && !adjacency[v].contains(true)
            && forall|u: int| 0 <= u < v ==> (#[trigger] adjacency[u]).contains(true),
{
    assert forall|u: int| 0 <= u < adjacency.len() implies (#[trigger] degree_of(adjacency, u) > 0
        <==> adjacency[u].contains(true)) by {
        lemma_degree_is_positive(adjacency, u);
        if adjacency[u].contains(true) {
            let w = choose|w: int| 0 <= w < adjacency[u].len() && adjacency[u][w] == true;
            assert(adjacency[u][w]);
        }
    }
    if forall|u: int| 0 <= u < adjacency.len() ==> (#[trigger] adjacency[u]).contains(true) {
        assert forall|u: int| 0 <= u < adjacency.len() implies #[trigger] degree_of(adjacency, u)
            > 0 by {
            assert(adjacency[u].contains(true));
        }
    }
    if no_isolated(adjacency) {
        assert forall|u: int| 0 <= u < adjacency.len() implies (
        #[trigger] adjacency[u]).contains(true) by {
            assert(degree_of(adjacency, u) > 0);
        }
    }
    if first_isolated(adjacency, v) {
        assert(degree_of(adjacency, v) == 0);
        assert forall|u: int| 0 <= u < v implies (#[trigger] adjacency[u]).contains(true) by {
            assert(degree_of(adjacency, u) > 0);
        }
    }
    if 0 <= v < adjacency.len() && !adjacency[v].contains(true) && forall|u: int|
        0 <= u < v ==> (#[trigger] adjacency[u]).contains(true) {
        assert(degree_of(adjacency, v) == 0);
        assert forall|u: int| 0 <= u < v implies #[trigger] degree_of(adjacency, u) > 0 by {
            assert(adjacency[u].contains(true));
        }
    }
}

/// A square matrix passes exactly where every entry is finite and has the value
/// of its mirror.
pub proof fn symmetric_matrices_pass(matrix: Seq<Seq<Double>>)
    ensures
        finite_symmetric(matrix) <==> forall|i: int, j: int|
            0 <= i < matrix.len() && 0 <= j < matrix.len() ==> (#[trigger] matrix[i][j]).finite()
                && matrix[i][j].same_value(matrix[j][i]),
{
    let n = matrix.len() as int;
    if finite_symmetric(matrix) {
        assert forall|i: int, j: int| 0 <= i < n && 0 <= j < n implies (
        #[trigger] matrix[i][j]).finite() && matrix[i][j].same_value(matrix[j][i]) by {
            if i <= j {
                assert(pair_fault(matrix, i, j) is None);
            } else {
                assert(pair_fault(matrix, j, i) is None);
            }
        }
    }
    if forall|i: int, j: int|
        0 <= i < matrix.len() && 0 <= j < matrix.len() ==> (#[trigger] matrix[i][j]).finite()
            && matrix[i][j].same_value(matrix[j][i]) {
        assert forall|i: int, j: int| 0 <= i <= j < n implies (#[trigger] pair_fault(
            matrix,
            i,
            j,
        )) is None by {
            assert(matrix[i][j].finite());
            assert(matrix[j][i].finite());
        }
    }
}

/// What is refused is named: an entry that is not finite at its own place, the
/// upper one of a pair first, and else two finite mirror entries that differ.
/// What comes before it, row by row in the upper triangle, is in order.
pub proof fn refused_entries_are_named(matrix: Seq<Seq<Double>>, r: int, c: int, i: int, j: int)
    requires
        0 <= r <= c < matrix.len(),
        matrix.len() <= usize::MAX,
    ensures
        pair_fault(matrix, r, c) == if !matrix[r][c].finite() {
            Some(Error::NonFinite { row: r as usize, column: c as usize })
        } else if !matrix[c][r].finite() {
            Some(Error::NonFinite { row: c as usize, column: r as usize })
        } else if matrix[r][c].rank() != matrix[c][r].rank() {
            Some(Error::NotSymmetric { row: r as usize, column: c as usize })
        } else {
            None
        },
        faultless_before(matrix, r, c) && 0 <= i <= j < matrix.len() && (i < r || (i == r && j
            < c)) ==> matrix[i][j].finite() && matrix[j][i].finite() && matrix[i][j].rank()
            == matrix[j][i].rank(),
{
    if faultless_before(matrix, r, c) && 0 <= i <= j < matrix.len() && (i < r || (i == r && j < c)) {
        assert(pair_fault(matrix, i, j) is None);
    }
}

/// Fixing a sign changes nothing but the sign: the column stays, or every
/// component is negated. The first component of a magnitude above 1e-9 comes out
/// positive, and a column that has none stays.
pub proof fn signs_are_fixed_by_the_pivot(column: Seq<Double>, i: int)
    ensures
        sign_fixed(column).len() == column.len(),
        sign_fixed(column) == column || forall|k: int|
            0 <= k < column.len() ==> #[trigger] sign_fixed(column)[k] == column[k].negated(),
        (forall|k: int|
            0 <= k < column.len() ==> !(#[trigger] column[k]).absolute().greater(
                Double { bits: 0x3E11_2E0B_E826_D695 },
            )) ==> sign_fixed(column) == column,
        0 <= i < column.len() && column[i].absolute().greater(
            Double { bits: 0x3E11_2E0B_E826_D695 },
        ) && (forall|k: int|
            0 <= k < i ==> !(#[trigger] column[k]).absolute().greater(
                Double { bits: 0x3E11_2E0B_E826_D695 },
            )) ==> sign_fixed(column)[i].rank() > 0,
{
    if 0 <= i < column.len() && column[i].absolute().greater(
        Double { bits: 0x3E11_2E0B_E826_D695 },
    ) && (forall|k: int|
        0 <= k < i ==> !(#[trigger] column[k]).absolute().greater(
            Double { bits: 0x3E11_2E0B_E826_D695 },
        )) {
        assert(significant(column[i]));
        assert forall|k: int| 0 <= k < i implies !significant(#[trigger] column[k]) by {}
        assert(is_pivot(column, i));
        lemma_flip_keeps_pivots(column, i);
        pivots_are_positive(column, i);
    }
    if pivot_negative(column) {
        let k = choose|k: int| #[trigger] is_pivot(column, k) && column[k].rank() < 0;
        assert(significant(column[k]));
    }
}

/// Groups are cut where neighbours lie apart: they run through the indices from
/// first to last without a gap, none is empty, and two neighbouring indices
/// share a group exactly where their distance does not exceed the tolerance.
pub proof fn groups_are_cut_between_distant_neighbours(
    distances: Seq<Seq<Double>>,
    tolerance: Double,
    groups: Seq<Range<usize>>,
    i: int,
    k: int,
)
    requires
        is_grouping(distances, tolerance, groups),
    ensures
        groups.len() > 0,
        groups[0].start == 0,
        groups.last().end == distances.len(),
        0 <= k < groups.len() ==> groups[k].start < groups[k].end,
        0 < k < groups.len() ==> groups[k - 1].end == groups[k].start,
        0 < i < distances.len() ==> ((exists|g: int|
            0 <= g < groups.len() && (#[trigger] groups[g]).start <= i - 1 && i < groups[g].end)
            <==> !distances[i - 1][i].greater(tolerance)),
{
    if 0 < k < groups.len() {
        assert(continues(groups, k));
    }
    if 0 < i < distances.len() {
        if exists|g: int|
            0 <= g < groups.len() && (#[trigger] groups[g]).start <= i - 1 && i < groups[g].end {
            let g = choose|g: int|
                0 <= g < groups.len() && (#[trigger] groups[g]).start <= i - 1 && i
                    < groups[g].end;
            assert(!group_break(distances, tolerance, i));
        }
        if !distances[i - 1][i].greater(tolerance) {
            let g = lemma_index_in_group(distances, tolerance, groups, groups.len() - 1, i - 1);
            if groups[g].end == i {
                assert(group_break(distances, tolerance, groups[g].end as int));
            }
            assert(groups[g].start <= i - 1 && i < groups[g].end);
        }
    }
}

/// A spectrum holds the eigenpairs it was given, in ranking order: eigenvalue `j`
/// is the given one at the ranking's place `j`, its eigenvector is the given
/// column of that place or its negation, with a positive pivot, and the
/// distances are those of the same places.
pub proof fn spectra_hold_the_given_pairs(
    spectrum: Spectrum,
    decomposition: Decomposition,
    i: int,
    j: int,
)
    requires
        spectrum.wf(),
        spectrum.arranges(decomposition),
        decomposition.fits(spectrum.values().len()),
        0 <= i < spectrum.values().len(),
        0 <= j < spectrum.values().len(),
    ensures
        ({
            let order = ranking(decomposition.eigenvalues@);
            let place = order[j] as int;
            &&& order.len() == decomposition.eigenvalues@.len()
            &&& order.no_duplicates()
            &&& 0 <= place < spectrum.values().len()
            &&& spectrum.values()[j] == decomposition.eigenvalues@[place]
            &&& spectrum.gaps()[i][j] == decomposition.distances@[order[i] as int][place]
            &&& (forall|r: int|
                0 <= r < spectrum.values().len() ==> #[trigger] spectrum.vectors()[r][j]
                    == decomposition.eigenvectors@[r][place]) || (forall|r: int|
                0 <= r < spectrum.values().len() ==> #[trigger] spectrum.vectors()[r][j]
                    == decomposition.eigenvectors@[r][place].negated())
            &&& spectrum.vectors()[i][j].absolute().greater(
                Double { bits: 0x3E11_2E0B_E826_D695 },
            ) && (forall|k: int|
                0 <= k < i ==> !(#[trigger] spectrum.vectors()[k][j]).absolute().greater(
                    Double { bits: 0x3E11_2E0B_E826_D695 },
                )) ==> spectrum.vectors()[i][j].rank() > 0
        }),
{
    let order = ranking(decomposition.eigenvalues@);
    rankings_sort(decomposition.eigenvalues@, order);
    let place = order[j] as int;
    let given = column_of(decomposition.eigenvectors@, place);
    let made = column_of(spectrum.vectors(), j);
    assert(made == sign_fixed(given));
    signs_are_fixed_by_the_pivot(given, i);
    assert(forall|r: int|
        0 <= r < spectrum.values().len() ==> #[trigger] spectrum.vectors()[r][j] == made[r]);
    assert(forall|r: int|
        0 <= r < spectrum.values().len() ==> given[r] == #[trigger] decomposition.eigenvectors@[r][place]);
    if made == given {
        assert forall|r: int| 0 <= r < spectrum.values().len() implies #[trigger] spectrum.vectors()[r][j]
            == decomposition.eigenvectors@[r][place] by {
            assert(made[r] == given[r]);
        }
    } else {
        assert forall|r: int| 0 <= r < spectrum.values().len() implies #[trigger] spectrum.vectors()[r][j]
            == decomposition.eigenvectors@[r][place].negated() by {
            assert(sign_fixed(given)[r] == given[r].negated());
        }
    }
    if spectrum.vectors()[i][j].absolute().greater(Double { bits: 0x3E11_2E0B_E826_D695 }) && (
    forall|k: int|
        0 <= k < i ==> !(#[trigger] spectrum.vectors()[k][j]).absolute().greater(
            Double { bits: 0x3E11_2E0B_E826_D695 },
        )) {
        assert(significant(made[i]));
        assert forall|k: int| 0 <= k < i implies !significant(#[trigger] made[k]) by {
            assert(made[k] == spectrum.vectors()[k][j]);
        }
        assert(is_pivot(made, i));
    }
}

} // verus!
