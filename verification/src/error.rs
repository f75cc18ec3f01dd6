//! Typed error surface for the library.

use crate::double::Double;
use vstd::prelude::*;

verus! {

/// The parameter that a graph constructor refused.
#[derive(Clone, Copy, Debug, PartialEq, Eq, Structural)]
pub enum GraphParameter {
    /// Vertex count of an explicit or a complete graph.
    Order,
    /// Arm count of a path-star.
    Arms,
    /// Vertices per arm of a path-star.
    ArmLength,
    /// Row count of a grid.
    Rows,
    /// Column count of a grid.
    Columns,
    /// Vertex count of a cycle.
    CycleOrder,
    /// Root degree of a tree-star.
    RootDegree,
    /// Root-to-leaf edge count of a tree-star.
    PathLength,
}

/// All fallible operations of the library funnel through this enum.
#[derive(Clone, Debug)]
pub enum Error {
    /// A graph parameter lies below its minimum.
    InvalidGraphParameter { parameter: GraphParameter, minimum: usize, value: usize },
    /// An edge leaves the vertex range.
    EdgeOutOfBounds { u: usize, v: usize, order: usize },
    /// A vertex leaves the vertex range.
    VertexOutOfBounds { vertex: usize, order: usize },
    /// An edge joins a vertex to itself.
    SelfLoop { vertex: usize },
    /// The vertex count is beyond the representable range.
    GraphTooLarge,
    /// A vertex of degree zero, for which the inverse degree does not exist.
    IsolatedVertex { vertex: usize },
    /// The matrix is not square.
    NotSquare { rows: usize, columns: usize },
    /// The matrix has no entries.
    EmptyMatrix,
    /// A matrix entry is infinite or a NaN.
    NonFinite { row: usize, column: usize },
    /// A matrix entry differs from its mirror.
    NotSymmetric { row: usize, column: usize },
    /// A run parameter is not positive and finite.
    InvalidRunParameter { parameter: &'static str, value: Double },
    /// A run parameter is not non-negative and finite.
    NegativeRunParameter { parameter: &'static str, value: Double },
    /// A run parameter does not lie in [0, 1).
    RunParameterNotAFraction { parameter: &'static str, value: Double },
    /// The embedding dimension is zero.
    InvalidDimension { dimension: usize },
    /// An embedding does not have one row per vertex.
    EmbeddingOrderMismatch { rows: usize, order: usize },
    /// Two embedding factors differ in width.
    EmbeddingShapeMismatch { columns: usize, other_columns: usize },
    /// The step budget is zero.
    ZeroMaxSteps,
    /// An embedding's entry count is beyond the representable range.
    EmbeddingTooLarge { rows: usize, columns: usize },
    /// A matrix's entry count is beyond the representable range.
    MatrixTooLarge { rows: usize, columns: usize },
    /// A weight matrix is not square of the embedding's width.
    WeightShapeMismatch { rows: usize, columns: usize, width: usize },
    /// The graph has vertex pairs at only some of the required distances.
    InsufficientDistanceShells { available: usize },
}

} // verus!
