//! Graph construction.
//!
//! [`Graph`] stores an undirected, loop-free, unweighted graph as a dense
//! adjacency matrix plus a degree vector. Constructors cover the four tiny
//! graphs that the experiments study ([`Graph::path_star`], [`Graph::grid`],
//! [`Graph::cycle`], [`Graph::irregular`]), the tree-star family
//! ([`Graph::tree_star`]), and the complete graphs ([`Graph::complete`]).

use crate::counting::{count_flags, count_true};
use crate::error::{Error, GraphParameter};
use crate::matrix::Matrix;
use vstd::arithmetic::power2::pow2;
use vstd::prelude::*;

verus! {

/// The adjacency rows on `order` vertices of the relation `joined`.
pub open spec fn adjacency_of(order: nat, joined: spec_fn(int, int) -> bool) -> Seq<Seq<bool>> {
    Seq::new(order, |u: int| Seq::new(order, |v: int| joined(u, v)))
}

/// The rows are the adjacency of an undirected graph without loops.
pub open spec fn simple(adjacency: Seq<Seq<bool>>) -> bool {
    &&& forall|u: int|
        0 <= u < adjacency.len() ==> (#[trigger] adjacency[u]).len() == adjacency.len()
    &&& forall|u: int, v: int|
        0 <= u < adjacency.len() && 0 <= v < adjacency.len() ==> #[trigger] adjacency[u][v]
            == adjacency[v][u]
    &&& forall|u: int| 0 <= u < adjacency.len() ==> !#[trigger] adjacency[u][u]
}

/// The number of neighbours of `v`.
pub open spec fn degree_of(adjacency: Seq<Seq<bool>>, v: int) -> nat {
    count_true(adjacency[v], adjacency.len() as int)
}

/// The number of edges among the first `n` vertices: each vertex contributes
/// its neighbours that come before it.
pub open spec fn edges_among(adjacency: Seq<Seq<bool>>, n: int) -> nat
    decreases n,
{
    if n <= 0 {
        0
    } else {
        edges_among(adjacency, n - 1) + count_true(adjacency[n - 1], n - 1)
    }
}

/// The number of edges.
pub open spec fn edge_total(adjacency: Seq<Seq<bool>>) -> nat {
    edges_among(adjacency, adjacency.len() as int)
}

/// The edge list names the pair `u`, `v` in one direction or the other.
pub open spec fn listed(edges: Seq<(usize, usize)>, u: int, v: int) -> bool {
    edges.contains((u as usize, v as usize)) || edges.contains((v as usize, u as usize))
}

/// Why an edge is refused on `order` vertices.
pub open spec fn edge_fault(edge: (usize, usize), order: usize) -> Option<Error> {
    if edge.0 == edge.1 {
        Some(Error::SelfLoop { vertex: edge.0 })
    } else if edge.0 >= order || edge.1 >= order {
        Some(Error::EdgeOutOfBounds { u: edge.0, v: edge.1, order })
    } else {
        None
    }
}

/// The fault of the first edge that has one.
pub open spec fn first_fault(edges: Seq<(usize, usize)>, order: usize) -> Option<Error>
    decreases edges.len(),
{
    if edges.len() == 0 {
        None
    } else {
        match first_fault(edges.drop_last(), order) {
            Some(error) => Some(error),
            None => edge_fault(edges.last(), order),
        }
    }
}

/// The refusal of a parameter below its minimum.
pub open spec fn too_small(parameter: GraphParameter, minimum: usize, value: usize) -> Error {
    Error::InvalidGraphParameter { parameter, minimum, value }
}

/// The relation that joins every vertex from 1 on to its parent.
pub open spec fn parent_edge(parent: spec_fn(int) -> int) -> spec_fn(int, int) -> bool {
    |u: int, v: int| (v >= 1 && u == parent(v)) || (u >= 1 && v == parent(u))
}

/// The vertex before `v` on its arm of a path-star: the root 0 where `v`
/// opens an arm, and the preceding index elsewhere.
pub open spec fn path_star_parent(arm_len: int) -> spec_fn(int) -> int {
    |v: int|
        if (v - 1) % arm_len == 0 {
            0
        } else {
            v - 1
        }
}

/// The parent of `v` in a tree-star numbered breadth-first: the first `d`
/// vertices hang off the root, and after them each vertex in turn has the next
/// two as its children.
pub open spec fn tree_star_parent(d: int) -> spec_fn(int) -> int {
    |v: int|
        if v <= d {
            0
        } else {
            (v - d - 1) / 2 + 1
        }
}

/// The vertex count of a tree-star.
pub open spec fn tree_star_order(d: int, ell: nat) -> int {
    1 + d * (pow2(ell) - 1)
}

/// The four-neighbour lattice on vertices `r * cols + c`: same row and
/// adjacent columns, or same column and adjacent rows.
pub open spec fn lattice_edge(cols: int) -> spec_fn(int, int) -> bool {
    |u: int, v: int|
        {
            let (r, c) = (u / cols, u % cols);
            let (s, e) = (v / cols, v % cols);
            (r == s && (c + 1 == e || e + 1 == c)) || (c == e && (r + 1 == s || s + 1 == r))
        }
}

/// The cycle on `n` vertices.
pub open spec fn cycle_edge(n: int) -> spec_fn(int, int) -> bool {
    |u: int, v: int| v == (u + 1) % n || u == (v + 1) % n
}

/// One direction of the irregular graph's edges: an 11-cycle on 0 to 10 with
/// the chords (0, 2) and (5, 7), and a kite on 11 to 14.
pub open spec fn irregular_step(u: int, v: int) -> bool {
    ||| 0 <= u <= 9 && v == u + 1
    ||| u == 0 && v == 10
    ||| u == 0 && v == 2
    ||| u == 5 && v == 7
    ||| u == 11 && v == 12
    ||| u == 11 && v == 13
    ||| u == 12 && v == 13
    ||| u == 12 && v == 14
    ||| u == 13 && v == 14
}

/// The irregular graph's edges.
pub open spec fn irregular_edge() -> spec_fn(int, int) -> bool {
    |u: int, v: int| irregular_step(u, v) || irregular_step(v, u)
}

/// Every distinct pair.
pub open spec fn complete_edge() -> spec_fn(int, int) -> bool {
    |u: int, v: int| u != v
}

/// An undirected, loop-free, unweighted graph over vertices `0..order`.
///
/// The adjacency matrix is symmetric with a clear diagonal, and the degree
/// vector holds each vertex's count of neighbours.
#[derive(Clone, Debug, PartialEq, Eq)]
pub struct Graph {
    adjacency: Matrix<bool>,
    degrees: Vec<usize>,
}

impl View for Graph {
    type V = Seq<Seq<bool>>;

    /// The adjacency rows.
    closed spec fn view(&self) -> Seq<Seq<bool>> {
        self.adjacency@
    }
}

impl Graph {
    /// The stored degree vector.
    pub closed spec fn degree_seq(self) -> Seq<usize> {
        self.degrees@
    }

    /// The adjacency matrix's column count.
    pub closed spec fn width(self) -> nat {
        self.adjacency.width()
    }

    /// The invariant that every constructor establishes.
    pub open spec fn wf(self) -> bool {
        &&& simple(self@)
        &&& self@.len() >= 1
        &&& self@.len() <= usize::MAX
        &&& edge_total(self@) <= usize::MAX
        &&& self.width() == self@.len()
        &&& self.degree_seq().len() == self@.len()
        &&& forall|v: int|
            0 <= v < self@.len() ==> #[trigger] self.degree_seq()[v] == degree_of(self@, v)
    }

    /// Builds a graph on `order` vertices from an undirected edge list,
    /// tolerating repeated edges.
    pub fn from_edges(order: usize, edges: &[(usize, usize)]) -> (result: Result<Graph, Error>)
        ensures
            order == 0 ==> result == Err::<Graph, Error>(
                too_small(GraphParameter::Order, 1, order),
            ),
            order >= 1 ==> match first_fault(edges@, order) {
                Some(error) => result == Err::<Graph, Error>(error),
                None => result matches Ok(graph) && graph.wf() && graph@ == adjacency_of(
                    order as nat,
                    |u: int, v: int| listed(edges@, u, v),
                ),
            },
    {
        if let Err(error) = require_at_least(GraphParameter::Order, 1, order) {
            return Err(error);
        }
        let mut rows: Vec<Vec<bool>> = clear_rows(order);
        let mut k: usize = 0;
        while k < edges.len()
            invariant
                1 <= order,
                k <= edges@.len(),
                first_fault(edges@.take(k as int), order) is None,
                rows@.len() == order,
                forall|u: int| 0 <= u < order ==> (#[trigger] rows@[u])@.len() == order,
                forall|u: int, v: int|
                    0 <= u < order && 0 <= v < order ==> #[trigger] rows@[u]@[v] == listed(
                        edges@.take(k as int),
                        u,
                        v,
                    ),
                forall|i: int|
                    0 <= i < k ==> (#[trigger] edges@[i]).0 != edges@[i].1 && edges@[i].0 < order
                        && edges@[i].1 < order,
            decreases edges@.len() - k,
        {
            let (u, v) = edges[k];
            let ghost before = edges@.take(k as int);
            let ghost after = edges@.take(k + 1);
            assert(after.drop_last() =~= before);
            assert(after =~= before.push((u, v)));
            if u == v {
                proof {
                    lemma_fault_persists(edges@, order, k + 1);
                }
                return Err(Error::SelfLoop { vertex: u });
            }
            if u >= order || v >= order {
                proof {
                    lemma_fault_persists(edges@, order, k + 1);
                }
                return Err(Error::EdgeOutOfBounds { u, v, order });
            }
            let ghost old_rows = rows@;
            set_flag(&mut rows, u, v);
            set_flag(&mut rows, v, u);
            assert forall|x: int, y: int| 0 <= x < order && 0 <= y < order implies #[trigger] rows@[x]@[y]
                == listed(after, x, y) by {
                lemma_listed_push(before, (u, v), x, y);
                assert(old_rows[x]@[y] == listed(before, x, y));
            }
            k += 1;
        }
        assert(edges@.take(k as int) =~= edges@);

        let adjacency = Matrix::from_equal_rows(order, rows);
        let mut degrees: Vec<usize> = Vec::new();
        let mut vertex: usize = 0;
        while vertex < order
            invariant
                vertex <= order,
                adjacency.wf(),
                adjacency.has_shape(order as nat, order as nat),
                degrees@.len() == vertex,
                forall|w: int|
                    0 <= w < vertex ==> #[trigger] degrees@[w] == degree_of(adjacency@, w),
            decreases order - vertex,
        {
            assert(adjacency@[vertex as int].len() == order);
            degrees.push(count_flags(adjacency.row(vertex)));
            vertex += 1;
        }
        let graph = Graph { adjacency, degrees };
        assert forall|x: int, y: int| 0 <= x < order && 0 <= y < order implies #[trigger] graph@[x][y]
            == listed(edges@, x, y) by {
            assert(graph@[x] == rows@[x]@);
        }
        assert(graph@ =~~= adjacency_of(order as nat, |u: int, v: int| listed(edges@, u, v)));
        assert forall|x: int| 0 <= x < order implies !#[trigger] graph@[x][x] by {
            lemma_no_listed_loop(edges@, x);
        }
        proof {
            lemma_no_more_edges_than_listed(edges@, order);
        }
        Ok(graph)
    }
}

/// The edges among the first `n` vertices, smaller vertex first.
pub open spec fn edge_pairs(adjacency: Seq<Seq<bool>>, n: int) -> Set<(usize, usize)> {
    Set::new(
        |pair: (usize, usize)|
            pair.0 < pair.1 && pair.1 < n && adjacency[pair.1 as int][pair.0 as int],
    )
}

/// The edges from `v` to the first `n` vertices.
spec fn column_pairs(adjacency: Seq<Seq<bool>>, v: usize, n: int) -> Set<(usize, usize)> {
    Set::new(
        |pair: (usize, usize)| pair.1 == v && pair.0 < n && adjacency[v as int][pair.0 as int],
    )
}

proof fn lemma_column_pairs(adjacency: Seq<Seq<bool>>, v: usize, n: int)
    requires
        0 <= n <= usize::MAX,
    ensures
        column_pairs(adjacency, v, n).finite(),
        column_pairs(adjacency, v, n).len() == count_true(adjacency[v as int], n),
    decreases n,
{
    if n == 0 {
        assert(column_pairs(adjacency, v, n) =~= Set::empty());
    } else {
        lemma_column_pairs(adjacency, v, n - 1);
        let before = column_pairs(adjacency, v, n - 1);
        let last = ((n - 1) as usize, v);
        if adjacency[v as int][n - 1] {
            assert(column_pairs(adjacency, v, n) =~= before.insert(last));
        } else {
            assert(column_pairs(adjacency, v, n) =~= before);
        }
    }
}

pub(crate) proof fn lemma_edge_pairs(adjacency: Seq<Seq<bool>>, n: int)
    requires
        0 <= n <= usize::MAX,
    ensures
        edge_pairs(adjacency, n).finite(),
        edge_pairs(adjacency, n).len() == edges_among(adjacency, n),
    decreases n,
{
    if n == 0 {
        assert(edge_pairs(adjacency, n) =~= Set::empty());
    } else {
        lemma_edge_pairs(adjacency, n - 1);
        let v = (n - 1) as usize;
        lemma_column_pairs(adjacency, v, n - 1);
        let (earlier, column) = (edge_pairs(adjacency, n - 1), column_pairs(adjacency, v, n - 1));
        assert(edge_pairs(adjacency, n) =~= earlier.union(column));
        assert(earlier.disjoint(column));
        vstd::set_lib::lemma_set_disjoint_lens(earlier, column);
    }
}

/// The edge with its smaller vertex first.
spec fn ordered(edge: (usize, usize)) -> (usize, usize) {
    if edge.0 < edge.1 {
        edge
    } else {
        (edge.1, edge.0)
    }
}

/// A graph has no more edges than its edge list has entries.
proof fn lemma_no_more_edges_than_listed(edges: Seq<(usize, usize)>, order: usize)
    requires
        forall|i: int| 0 <= i < edges.len() ==> (#[trigger] edges[i]).0 != edges[i].1,
    ensures
        edge_total(adjacency_of(order as nat, |u: int, v: int| listed(edges, u, v)))
            <= edges.len(),
{
    let adjacency = adjacency_of(order as nat, |u: int, v: int| listed(edges, u, v));
    lemma_edge_pairs(adjacency, order as int);
    let pairs = edge_pairs(adjacency, order as int);
    vstd::seq_lib::seq_to_set_is_finite(edges);
    let put = |edge: (usize, usize)| ordered(edge);
    let image = edges.to_set().map(put);
    vstd::set_lib::lemma_map_size_bound(edges.to_set(), image, put);
    edges.lemma_cardinality_of_set();
    assert forall|pair: (usize, usize)| pairs.contains(pair) implies image.contains(pair) by {
        let (u, v) = pair;
        assert(adjacency[v as int][u as int] == listed(edges, v as int, u as int));
        if edges.contains((u, v)) {
            assert(put((u, v)) == pair);
            assert(edges.to_set().contains((u, v)));
        } else {
            assert(put((v, u)) == pair);
            assert(edges.to_set().contains((v, u)));
        }
    }
    vstd::set_lib::lemma_len_subset(pairs, image);
}

/// The edge list of a tree given by its parents: entry `k` joins vertex
/// `k + 1` to its parent.
spec fn parent_list(parent: spec_fn(int) -> int, count: int) -> Seq<(usize, usize)> {
    Seq::new(count as nat, |k: int| (parent(k + 1) as usize, (k + 1) as usize))
}

proof fn lemma_no_fault(edges: Seq<(usize, usize)>, order: usize)
    requires
        forall|i: int| 0 <= i < edges.len() ==> edge_fault(#[trigger] edges[i], order) is None,
    ensures
        first_fault(edges, order) is None,
    decreases edges.len(),
{
    if edges.len() > 0 {
        lemma_no_fault(edges.drop_last(), order);
    }
}

/// A parent list has no fault, and lists the parent relation.
proof fn lemma_parent_list(parent: spec_fn(int) -> int, order: usize)
    requires
        order >= 1,
        forall|v: int| 1 <= v < order ==> 0 <= #[trigger] parent(v) < v,
    ensures
        first_fault(parent_list(parent, order - 1), order) is None,
        adjacency_of(
            order as nat,
            |u: int, v: int| listed(parent_list(parent, order - 1), u, v),
        ) == adjacency_of(order as nat, parent_edge(parent)),
{
    let edges = parent_list(parent, order - 1);
    assert forall|i: int| 0 <= i < edges.len() implies edge_fault(#[trigger] edges[i], order) is None by {
        assert(0 <= parent(i + 1) < i + 1);
    }
    lemma_no_fault(edges, order);
    let rel = parent_edge(parent);
    assert forall|u: int, v: int| 0 <= u < order && 0 <= v < order implies listed(edges, u, v) == #[trigger] rel(
        u,
        v,
    ) by {
        if v >= 1 && u == parent(v) {
            assert(edges[v - 1] == (u as usize, v as usize));
        }
        if u >= 1 && v == parent(u) {
            assert(edges[u - 1] == (v as usize, u as usize));
        }
        if edges.contains((u as usize, v as usize)) {
            let i = choose|i: int| 0 <= i < edges.len() && edges[i] == (u as usize, v as usize);
            assert(0 <= parent(i + 1) < i + 1);
        }
        if edges.contains((v as usize, u as usize)) {
            let i = choose|i: int| 0 <= i < edges.len() && edges[i] == (v as usize, u as usize);
            assert(0 <= parent(i + 1) < i + 1);
        }
    }
    assert(adjacency_of(order as nat, |u: int, v: int| listed(edges, u, v)) =~~= adjacency_of(
        order as nat,
        rel,
    ));
}

impl Graph {
    /// Builds a path-star: a central root with `arms` disjoint paths, each
    /// carrying `arm_len` vertices beyond the root.
    ///
    /// The result has `1 + arms * arm_len` vertices; the root is vertex 0 and
    /// arm `a` occupies the contiguous block
    /// `1 + a * arm_len .. 1 + (a + 1) * arm_len`.
    pub fn path_star(arms: usize, arm_len: usize) -> (result: Result<Graph, Error>)
        ensures
            arms == 0 ==> result == Err::<Graph, Error>(too_small(GraphParameter::Arms, 1, arms)),
            arms >= 1 && arm_len == 0 ==> result == Err::<Graph, Error>(
                too_small(GraphParameter::ArmLength, 1, arm_len),
            ),
            arms >= 1 && arm_len >= 1 && 1 + arms * arm_len > usize::MAX ==> result == Err::<
                Graph,
                Error,
            >(Error::GraphTooLarge),
            arms >= 1 && arm_len >= 1 && 1 + arms * arm_len <= usize::MAX ==> (result matches Ok(
                graph,
            ) && graph.wf() && graph@ == adjacency_of(
                (1 + arms * arm_len) as nat,
                parent_edge(path_star_parent(arm_len as int)),
            )),
    {
        if let Err(error) = require_at_least(GraphParameter::Arms, 1, arms) {
            return Err(error);
        }
        if let Err(error) = require_at_least(GraphParameter::ArmLength, 1, arm_len) {
            return Err(error);
        }
        let leaves: usize = match arms.checked_mul(arm_len) {
            Some(leaves) => leaves,
            None => {
                return Err(Error::GraphTooLarge);
            },
        };
        let order: usize = match leaves.checked_add(1) {
            Some(order) => order,
            None => {
                return Err(Error::GraphTooLarge);
            },
        };

        let ghost parent = path_star_parent(arm_len as int);
        let mut edges: Vec<(usize, usize)> = Vec::new();
        let mut arm: usize = 0;
        assert(edges@ =~= parent_list(parent, 0));
        while arm < arms
            invariant
                arm <= arms,
                arm_len >= 1,
                order == 1 + arms * arm_len,
                parent == path_star_parent(arm_len as int),
                edges@ == parent_list(parent, arm * arm_len),
            decreases arms - arm,
        {
            assert(arm * arm_len + arm_len == (arm + 1) * arm_len) by (nonlinear_arith);
            assert((arm + 1) * arm_len <= arms * arm_len) by (nonlinear_arith)
                requires
                    arm + 1 <= arms,
            ;
            assert(arm * arm_len >= 0) by (nonlinear_arith);
            let base: usize = 1 + arm * arm_len;
            proof {
                lemma_arm_offset(arm as int, arm_len as int, 0);
            }
            edges.push((0, base));
            assert(edges@ =~= parent_list(parent, arm * arm_len + 1));
            let mut step: usize = 1;
            while step < arm_len
                invariant
                    1 <= step <= arm_len,
                    base == 1 + arm * arm_len,
                    base + arm_len <= order,
                    parent == path_star_parent(arm_len as int),
                    edges@ == parent_list(parent, arm * arm_len + step),
                decreases arm_len - step,
            {
                proof {
                    lemma_arm_offset(arm as int, arm_len as int, step as int);
                }
                edges.push((base + step - 1, base + step));
                assert(edges@ =~= parent_list(parent, arm * arm_len + (step + 1)));
                step += 1;
            }
            arm += 1;
        }
        proof {
            assert forall|v: int| 1 <= v < order implies 0 <= #[trigger] parent(v) < v by {
                if (v - 1) % (arm_len as int) != 0 {
                    assert(v != 1) by {
                        vstd::arithmetic::div_mod::lemma_small_mod(0, arm_len as nat);
                    }
                }
            }
            lemma_parent_list(parent, order);
        }
        Self::from_edges(order, edges.as_slice())
    }
}

impl Graph {
    /// Builds a `rows` by `cols` four-neighbour lattice; vertex `(r, c)` is
    /// index `r * cols + c`.
    pub fn grid(rows: usize, cols: usize) -> (result: Result<Graph, Error>)
        ensures
            rows == 0 ==> result == Err::<Graph, Error>(too_small(GraphParameter::Rows, 1, rows)),
            rows >= 1 && cols == 0 ==> result == Err::<Graph, Error>(
                too_small(GraphParameter::Columns, 1, cols),
            ),
            rows >= 1 && cols >= 1 && rows * cols > usize::MAX ==> result == Err::<Graph, Error>(
                Error::GraphTooLarge,
            ),
            rows >= 1 && cols >= 1 && rows * cols <= usize::MAX ==> (result matches Ok(graph)
                && graph.wf() && graph@ == adjacency_of(
                (rows * cols) as nat,
                lattice_edge(cols as int),
            )),
    {
        if let Err(error) = require_at_least(GraphParameter::Rows, 1, rows) {
            return Err(error);
        }
        if let Err(error) = require_at_least(GraphParameter::Columns, 1, cols) {
            return Err(error);
        }
        let order: usize = match rows.checked_mul(cols) {
            Some(order) => order,
            None => {
                return Err(Error::GraphTooLarge);
            },
        };
        assert(rows * cols >= 1) by (nonlinear_arith)
            requires
                rows >= 1,
                cols >= 1,
        ;

        let mut edges: Vec<(usize, usize)> = Vec::new();
        let mut r: usize = 0;
        while r < rows
            invariant
                r <= rows,
                cols >= 1,
                order == rows * cols,
                forall|i: int|
                    0 <= i < edges@.len() ==> lattice_step(
                        rows as int,
                        cols as int,
                        (#[trigger] edges@[i]).0 as int,
                        edges@[i].1 as int,
                    ),
                forall|u: usize, v: usize|
                    u < r * cols && lattice_step(rows as int, cols as int, u as int, v as int)
                        ==> #[trigger] edges@.contains((u, v)),
            decreases rows - r,
        {
            assert(r * cols + cols == (r + 1) * cols) by (nonlinear_arith);
            assert((r + 1) * cols <= rows * cols) by (nonlinear_arith)
                requires
                    r + 1 <= rows,
            ;
            assert(r * cols >= 0) by (nonlinear_arith);
            let mut c: usize = 0;
            while c < cols
                invariant
                    r < rows,
                    c <= cols,
                    cols >= 1,
                    order == rows * cols,
                    0 <= r * cols,
                    r * cols + cols == (r + 1) * cols,
                    (r + 1) * cols <= order,
                    forall|i: int|
                        0 <= i < edges@.len() ==> lattice_step(
                            rows as int,
                            cols as int,
                            (#[trigger] edges@[i]).0 as int,
                            edges@[i].1 as int,
                        ),
                    forall|u: usize, v: usize|
                        u < r * cols + c && lattice_step(
                            rows as int,
                            cols as int,
                            u as int,
                            v as int,
                        ) ==> #[trigger] edges@.contains((u, v)),
                decreases cols - c,
            {
                let here: usize = r * cols + c;
                let ghost before = edges@;
                proof {
                    vstd::arithmetic::div_mod::lemma_fundamental_div_mod_converse(
                        here as int,
                        cols as int,
                        r as int,
                        c as int,
                    );
                }
                if c + 1 < cols {
                    edges.push((here, here + 1));
                }
                let ghost middle = edges@;
                if r + 1 < rows {
                    assert((r + 2) * cols == (r + 1) * cols + cols) by (nonlinear_arith);
                    assert((r + 2) * cols <= rows * cols) by (nonlinear_arith)
                        requires
                            r + 2 <= rows,
                    ;
                    edges.push((here, here + cols));
                }
                assert forall|u: usize, v: usize|
                    u < r * cols + (c + 1) && lattice_step(
                        rows as int,
                        cols as int,
                        u as int,
                        v as int,
                    ) implies #[trigger] edges@.contains((u, v)) by {
                    if u < here {
                        assert(before.contains((u, v)));
                        let i = choose|i: int| 0 <= i < before.len() && before[i] == (u, v);
                        assert(edges@[i] == (u, v));
                    } else if v == here + 1 && c + 1 < cols {
                        assert(middle[before.len() as int] == (u, v));
                        assert(edges@[before.len() as int] == (u, v));
                    } else {
                        assert(edges@[middle.len() as int] == (u, v));
                    }
                }
                c += 1;
            }
            r += 1;
        }
        proof {
            lemma_lattice_list(edges@, rows, cols, order);
        }
        Self::from_edges(order, edges.as_slice())
    }

    /// Builds the `n`-vertex cycle, with vertex `i` adjacent to `(i + 1) % n`.
    pub fn cycle(n: usize) -> (result: Result<Graph, Error>)
        ensures
            n < 3 ==> result == Err::<Graph, Error>(too_small(GraphParameter::CycleOrder, 3, n)),
            n >= 3 ==> (result matches Ok(graph) && graph.wf() && graph@ == adjacency_of(
                n as nat,
                cycle_edge(n as int),
            )),
    {
        if let Err(error) = require_at_least(GraphParameter::CycleOrder, 3, n) {
            return Err(error);
        }
        let mut edges: Vec<(usize, usize)> = Vec::new();
        let mut i: usize = 0;
        while i < n
            invariant
                i <= n,
                n >= 3,
                edges@ == cycle_list(n as int, i as int),
            decreases n - i,
        {
            let next: usize = if i + 1 == n {
                0
            } else {
                i + 1
            };
            proof {
                lemma_cycle_next(n as int, i as int);
            }
            edges.push((i, next));
            assert(edges@ =~= cycle_list(n as int, i + 1));
            i += 1;
        }
        proof {
            lemma_cycle_list(n);
        }
        Self::from_edges(n, edges.as_slice())
    }

    /// Builds the 15-vertex, two-component irregular graph.
    ///
    /// Component A is an 11-cycle on vertices 0 to 10 with chords (0, 2) and
    /// (5, 7); component B is a kite: a triangle on 11, 12, 13 with vertex 14
    /// adjacent to 12 and 13. The two components share no edge.
    pub fn irregular() -> (result: Result<Graph, Error>)
        ensures
            result matches Ok(graph) && graph.wf() && graph@ == adjacency_of(
                15,
                irregular_edge(),
            ),
    {
        let mut edges: Vec<(usize, usize)> = Vec::new();
        let mut i: usize = 0;
        while i < 11
            invariant
                i <= 11,
                edges@ == cycle_list(11, i as int),
            decreases 11 - i,
        {
            let next: usize = if i + 1 == 11 {
                0
            } else {
                i + 1
            };
            proof {
                lemma_cycle_next(11, i as int);
            }
            edges.push((i, next));
            assert(edges@ =~= cycle_list(11, i + 1));
            i += 1;
        }
        edges.push((0, 2));
        edges.push((5, 7));
        edges.push((11, 12));
        edges.push((12, 13));
        edges.push((11, 13));
        edges.push((12, 14));
        edges.push((13, 14));
        proof {
            lemma_irregular_list(edges@);
        }
        Self::from_edges(15, edges.as_slice())
    }

    /// Builds the tree-star `T_{d,ell}`: a root of degree `d` whose every
    /// non-leaf descendant has two children, with `ell` edges on each
    /// root-to-leaf path.
    ///
    /// The result has `1 + d * (2^ell - 1)` vertices, numbered breadth-first
    /// from the root.
    pub fn tree_star(d: usize, ell: usize) -> (result: Result<Graph, Error>)
        ensures
            d == 0 ==> result == Err::<Graph, Error>(too_small(GraphParameter::RootDegree, 1, d)),
            d >= 1 && ell == 0 ==> result == Err::<Graph, Error>(
                too_small(GraphParameter::PathLength, 1, ell),
            ),
            d >= 1 && ell >= 1 && tree_star_order(d as int, ell as nat) > usize::MAX ==> result
                == Err::<Graph, Error>(Error::GraphTooLarge),
            d >= 1 && ell >= 1 && tree_star_order(d as int, ell as nat) <= usize::MAX ==> (
            result matches Ok(graph) && graph.wf() && graph@ == adjacency_of(
                tree_star_order(d as int, ell as nat) as nat,
                parent_edge(tree_star_parent(d as int)),
            )),
    {
        if let Err(error) = require_at_least(GraphParameter::RootDegree, 1, d) {
            return Err(error);
        }
        if let Err(error) = require_at_least(GraphParameter::PathLength, 1, ell) {
            return Err(error);
        }
        let mut per_arm: usize = 0;
        let mut level: usize = 1;
        let mut depth: usize = 0;
        proof {
            lemma_power_values();
        }
        while depth < ell
            invariant
                d >= 1,
                depth <= ell,
                per_arm == pow2(depth as nat) - 1,
                level == pow2(depth as nat) || (level == usize::MAX && pow2(depth as nat)
                    > usize::MAX),
            decreases ell - depth,
        {
            proof {
                lemma_double_power(depth as nat);
                lemma_power_grows((depth + 1) as nat, ell as nat);
            }
            per_arm = match per_arm.checked_add(level) {
                Some(sum) => sum,
                None => {
                    proof {
                        lemma_times_at_least(d as int, pow2(ell as nat) - 1);
                    }
                    return Err(Error::GraphTooLarge);
                },
            };
            level = level.saturating_add(level);
            depth += 1;
        }
        let descendants: usize = match d.checked_mul(per_arm) {
            Some(descendants) => descendants,
            None => {
                return Err(Error::GraphTooLarge);
            },
        };
        let order: usize = match descendants.checked_add(1) {
            Some(order) => order,
            None => {
                return Err(Error::GraphTooLarge);
            },
        };

        let ghost parent = tree_star_parent(d as int);
        let mut edges: Vec<(usize, usize)> = Vec::new();
        let mut next_index: usize = 1;
        let mut frontier: Vec<usize> = Vec::new();
        proof {
            lemma_times_at_least(d as int, pow2(ell as nat) - 1);
            lemma_power_grows(1, ell as nat);
            assert(d * 1 <= d * (pow2(ell as nat) - 1)) by (nonlinear_arith)
                requires
                    1 <= pow2(ell as nat) - 1,
                    d >= 1,
            ;
        }
        assert(edges@ =~= parent_list(parent, 0));
        while next_index <= d
            invariant
                d < order,
                1 <= next_index <= d + 1,
                parent == tree_star_parent(d as int),
                edges@ == parent_list(parent, next_index - 1),
                frontier@.len() == next_index - 1,
                forall|i: int| 0 <= i < frontier@.len() ==> #[trigger] frontier@[i] == i + 1,
            decreases d + 1 - next_index,
        {
            edges.push((0, next_index));
            assert(edges@ =~= parent_list(parent, next_index as int));
            frontier.push(next_index);
            next_index += 1;
        }
        let ghost mut first: int = 1;
        depth = 1;
        while depth < ell
            invariant
                d >= 1,
                1 <= depth <= ell,
                order == tree_star_order(d as int, ell as nat),
                parent == tree_star_parent(d as int),
                1 <= first,
                next_index == first + frontier@.len(),
                next_index == d + 1 + 2 * (first - 1),
                next_index == tree_star_order(d as int, depth as nat),
                edges@ == parent_list(parent, next_index - 1),
                forall|i: int|
                    0 <= i < frontier@.len() ==> #[trigger] frontier@[i] == first + i,
            decreases ell - depth,
        {
            proof {
                lemma_level_fits(d as int, depth as nat, ell as nat, first);
            }
            let mut children: Vec<usize> = Vec::new();
            let mut k: usize = 0;
            let ghost start: int = next_index as int;
            while k < frontier.len()
                invariant
                    d >= 1,
                    k <= frontier@.len(),
                    1 <= first,
                    start == first + frontier@.len(),
                    start == d + 1 + 2 * (first - 1),
                    start + 2 * frontier@.len() <= order,
                    next_index == start + 2 * k,
                    parent == tree_star_parent(d as int),
                    edges@ == parent_list(parent, next_index - 1),
                    children@.len() == 2 * k,
                    forall|i: int|
                        0 <= i < frontier@.len() ==> #[trigger] frontier@[i] == first + i,
                    forall|i: int|
                        0 <= i < children@.len() ==> #[trigger] children@[i] == start + i,
                decreases frontier@.len() - k,
            {
                let above: usize = frontier[k];
                assert((next_index - d - 1) / 2 + 1 == above);
                edges.push((above, next_index));
                assert(edges@ =~= parent_list(parent, next_index as int));
                children.push(next_index);
                assert((next_index + 1 - d - 1) / 2 + 1 == above);
                edges.push((above, next_index + 1));
                assert(edges@ =~= parent_list(parent, next_index + 1));
                children.push(next_index + 1);
                next_index += 2;
                k += 1;
            }
            frontier = children;
            proof {
                first = start;
            }
            depth += 1;
        }
        proof {
            lemma_parent_list(parent, order);
        }
        Self::from_edges(order, edges.as_slice())
    }

    /// Builds the complete graph on `n` vertices, in which every distinct pair
    /// is adjacent.
    pub fn complete(n: usize) -> (result: Result<Graph, Error>)
        ensures
            n < 2 ==> result == Err::<Graph, Error>(too_small(GraphParameter::Order, 2, n)),
            n >= 2 ==> (result matches Ok(graph) && graph.wf() && graph@ == adjacency_of(
                n as nat,
                complete_edge(),
            )),
    {
        if let Err(error) = require_at_least(GraphParameter::Order, 2, n) {
            return Err(error);
        }
        let mut edges: Vec<(usize, usize)> = Vec::new();
        let mut u: usize = 0;
        while u < n
            invariant
                u <= n,
                forall|i: int|
                    0 <= i < edges@.len() ==> (#[trigger] edges@[i]).0 < edges@[i].1 < n,
                forall|x: usize, y: usize|
                    x < u && x < y < n ==> #[trigger] edges@.contains((x, y)),
            decreases n - u,
        {
            let mut v: usize = u + 1;
            while v < n
                invariant
                    u < v <= n,
                    forall|i: int|
                        0 <= i < edges@.len() ==> (#[trigger] edges@[i]).0 < edges@[i].1 < n,
                    forall|x: usize, y: usize|
                        (x < u && x < y < n) || (x == u && x < y < v)
                            ==> #[trigger] edges@.contains((x, y)),
                decreases n - v,
            {
                let ghost before = edges@;
                edges.push((u, v));
                assert forall|x: usize, y: usize|
                    (x < u && x < y < n) || (x == u && x < y < v + 1) implies #[trigger] edges@.contains(
                (x, y)) by {
                    if x == u && y == v {
                        assert(edges@[before.len() as int] == (x, y));
                    } else {
                        assert(before.contains((x, y)));
                        let i = choose|i: int| 0 <= i < before.len() && before[i] == (x, y);
                        assert(edges@[i] == (x, y));
                    }
                }
                v += 1;
            }
            u += 1;
        }
        proof {
            lemma_no_fault(edges@, n);
            let rel = complete_edge();
            assert forall|x: int, y: int| 0 <= x < n && 0 <= y < n implies listed(edges@, x, y)
                == #[trigger] rel(x, y) by {
                if x < y {
                    assert(edges@.contains((x as usize, y as usize)));
                } else if y < x {
                    assert(edges@.contains((y as usize, x as usize)));
                } else {
                    lemma_no_listed_loop(edges@, x);
                }
            }
            assert(adjacency_of(n as nat, |x: int, y: int| listed(edges@, x, y)) =~~= adjacency_of(
                n as nat,
                rel,
            ));
        }
        Self::from_edges(n, edges.as_slice())
    }

    /// The number of vertices.
    pub fn order(&self) -> (order: usize)
        requires
            self.wf(),
        ensures
            order == self@.len(),
    {
        self.degrees.len()
    }

    /// The number of undirected edges.
    pub fn edge_count(&self) -> (count: usize)
        requires
            self.wf(),
        ensures
            count == edge_total(self@),
    {
        let order: usize = self.order();
        let mut count: usize = 0;
        let mut v: usize = 0;
        while v < order
            invariant
                self.wf(),
                order == self@.len(),
                v <= order,
                count == edges_among(self@, v as int),
            decreases order - v,
        {
            let mut u: usize = 0;
            while u < v
                invariant
                    self.wf(),
                    order == self@.len(),
                    u <= v < order,
                    count == edges_among(self@, v as int) + count_true(self@[v as int], u as int),
                decreases v - u,
            {
                proof {
                    lemma_count_grows(self@[v as int], u + 1, v as int);
                    lemma_edges_grow(self@, v + 1, order as int);
                    assert(self@[u as int][v as int] == self@[v as int][u as int]);
                    assert(self@[u as int].len() == order);
                }
                if *self.adjacency.at(u, v) {
                    count += 1;
                }
                u += 1;
            }
            v += 1;
        }
        count
    }

    /// The symmetric, clear-diagonal adjacency matrix.
    pub fn adjacency(&self) -> (matrix: &Matrix<bool>)
        requires
            self.wf(),
        ensures
            matrix@ == self@,
            matrix.wf(),
            matrix.has_shape(self@.len(), self@.len()),
    {
        &self.adjacency
    }

    /// The degree vector, entry `i` holding the number of neighbours of `i`.
    pub fn degrees(&self) -> (degrees: &[usize])
        requires
            self.wf(),
        ensures
            degrees@ == self.degree_seq(),
    {
        self.degrees.as_slice()
    }
}

/// One direction of the lattice: `v` is right of `u` or below it.
spec fn lattice_step(rows: int, cols: int, u: int, v: int) -> bool {
    &&& 0 <= u
    &&& v < rows * cols
    &&& (v == u + 1 && u % cols + 1 < cols) || v == u + cols
}

/// A list that holds the lattice steps, and nothing else, lists the lattice.
proof fn lemma_lattice_list(edges: Seq<(usize, usize)>, rows: usize, cols: usize, order: usize)
    requires
        cols >= 1,
        order == rows * cols,
        forall|i: int|
            0 <= i < edges.len() ==> lattice_step(
                rows as int,
                cols as int,
                (#[trigger] edges[i]).0 as int,
                edges[i].1 as int,
            ),
        forall|u: usize, v: usize|
            u < order && lattice_step(rows as int, cols as int, u as int, v as int)
                ==> #[trigger] edges.contains((u, v)),
    ensures
        first_fault(edges, order) is None,
        adjacency_of(order as nat, |u: int, v: int| listed(edges, u, v)) == adjacency_of(
            order as nat,
            lattice_edge(cols as int),
        ),
{
    lemma_no_fault(edges, order);
    let rel = lattice_edge(cols as int);
    assert forall|u: int, v: int| 0 <= u < order && 0 <= v < order implies listed(edges, u, v) == #[trigger] rel(
        u,
        v,
    ) by {
        lemma_lattice_steps(rows as int, cols as int, u, v);
        let (x, y) = (u as usize, v as usize);
        if rel(u, v) {
            if lattice_step(rows as int, cols as int, u, v) {
                assert(edges.contains((x, y)));
            } else {
                assert(edges.contains((y, x)));
            }
        }
        if edges.contains((x, y)) {
            let i = choose|i: int| 0 <= i < edges.len() && edges[i] == (x, y);
            assert(lattice_step(rows as int, cols as int, edges[i].0 as int, edges[i].1 as int));
        }
        if edges.contains((y, x)) {
            let i = choose|i: int| 0 <= i < edges.len() && edges[i] == (y, x);
            assert(lattice_step(rows as int, cols as int, edges[i].0 as int, edges[i].1 as int));
        }
    }
    assert(adjacency_of(order as nat, |u: int, v: int| listed(edges, u, v)) =~~= adjacency_of(
        order as nat,
        rel,
    ));
}

/// Two vertices are lattice neighbours exactly where a step leads from one to
/// the other.
proof fn lemma_lattice_steps(rows: int, cols: int, u: int, v: int)
    requires
        cols >= 1,
        0 <= u < rows * cols,
        0 <= v < rows * cols,
    ensures
        lattice_edge(cols)(u, v) <==> lattice_step(rows, cols, u, v) || lattice_step(
            rows,
            cols,
            v,
            u,
        ),
{
    lemma_lattice_coordinates(cols, u, v);
    lemma_lattice_coordinates(cols, v, u);
}

pub(crate) proof fn lemma_lattice_coordinates(cols: int, u: int, v: int)
    requires
        cols >= 1,
        0 <= u,
        0 <= v,
    ensures
        v == u + 1 && u % cols + 1 < cols <==> u / cols == v / cols && u % cols + 1 == v % cols,
        v == u + cols <==> u % cols == v % cols && u / cols + 1 == v / cols,
{
    let (r, c) = (u / cols, u % cols);
    let (s, e) = (v / cols, v % cols);
    vstd::arithmetic::div_mod::lemma_fundamental_div_mod(u, cols);
    vstd::arithmetic::div_mod::lemma_fundamental_div_mod(v, cols);
    assert(u == cols * r + c);
    assert(v == cols * s + e);
    if c + 1 < cols {
        vstd::arithmetic::div_mod::lemma_fundamental_div_mod_converse(u + 1, cols, r, c + 1);
    }
    assert(cols * (r + 1) == cols * r + cols) by (nonlinear_arith);
    vstd::arithmetic::div_mod::lemma_fundamental_div_mod_converse(u + cols, cols, r + 1, c);
    if c == e && r + 1 == s {
        assert(v == cols * (r + 1) + c);
    }
}

/// The first `count` edges of the cycle on `n` vertices.
spec fn cycle_list(n: int, count: int) -> Seq<(usize, usize)> {
    Seq::new(count as nat, |k: int| (k as usize, ((k + 1) % n) as usize))
}

pub(crate) proof fn lemma_cycle_next(n: int, i: int)
    requires
        0 <= i < n,
    ensures
        (i + 1) % n == if i + 1 == n {
            0
        } else {
            i + 1
        },
{
    if i + 1 == n {
        vstd::arithmetic::div_mod::lemma_mod_self_0(n);
    } else {
        vstd::arithmetic::div_mod::lemma_small_mod((i + 1) as nat, n as nat);
    }
}

proof fn lemma_cycle_list(n: usize)
    requires
        n >= 3,
    ensures
        first_fault(cycle_list(n as int, n as int), n) is None,
        adjacency_of(
            n as nat,
            |u: int, v: int| listed(cycle_list(n as int, n as int), u, v),
        ) == adjacency_of(n as nat, cycle_edge(n as int)),
{
    let edges = cycle_list(n as int, n as int);
    let rel = cycle_edge(n as int);
    assert forall|i: int| 0 <= i < edges.len() implies edge_fault(#[trigger] edges[i], n) is None by {
        lemma_cycle_next(n as int, i);
    }
    lemma_no_fault(edges, n);
    assert forall|u: int, v: int| 0 <= u < n && 0 <= v < n implies listed(edges, u, v) == #[trigger] rel(
        u,
        v,
    ) by {
        lemma_cycle_next(n as int, u);
        lemma_cycle_next(n as int, v);
        assert(edges[u] == (u as usize, ((u + 1) % (n as int)) as usize));
        assert(edges[v] == (v as usize, ((v + 1) % (n as int)) as usize));
        if edges.contains((u as usize, v as usize)) {
            let i = choose|i: int| 0 <= i < edges.len() && edges[i] == (u as usize, v as usize);
            assert(i == u);
        }
        if edges.contains((v as usize, u as usize)) {
            let i = choose|i: int| 0 <= i < edges.len() && edges[i] == (v as usize, u as usize);
            assert(i == v);
        }
    }
    assert(adjacency_of(n as nat, |u: int, v: int| listed(edges, u, v)) =~~= adjacency_of(
        n as nat,
        rel,
    ));
}

proof fn lemma_irregular_list(edges: Seq<(usize, usize)>)
    requires
        edges == cycle_list(11, 11).push((0, 2)).push((5, 7)).push((11, 12)).push((12, 13)).push(
            (11, 13),
        ).push((12, 14)).push((13, 14)),
    ensures
        first_fault(edges, 15) is None,
        adjacency_of(15, |u: int, v: int| listed(edges, u, v)) == adjacency_of(
            15,
            irregular_edge(),
        ),
{
    let rel = irregular_edge();
    assert forall|i: int| 0 <= i < edges.len() implies edge_fault(#[trigger] edges[i], 15) is None by {
        if i < 11 {
            lemma_cycle_next(11, i);
        }
    }
    lemma_no_fault(edges, 15);
    assert forall|u: int, v: int| 0 <= u < 15 && 0 <= v < 15 implies listed(edges, u, v) == #[trigger] rel(
        u,
        v,
    ) by {
        lemma_irregular_direction(edges, u, v);
        lemma_irregular_direction(edges, v, u);
    }
    assert(adjacency_of(15, |u: int, v: int| listed(edges, u, v)) =~~= adjacency_of(15, rel));
}

proof fn lemma_irregular_direction(edges: Seq<(usize, usize)>, u: int, v: int)
    requires
        edges == cycle_list(11, 11).push((0, 2)).push((5, 7)).push((11, 12)).push((12, 13)).push(
            (11, 13),
        ).push((12, 14)).push((13, 14)),
        0 <= u < 15,
        0 <= v < 15,
    ensures
        irregular_step(u, v) ==> edges.contains((u as usize, v as usize)) || edges.contains(
            (v as usize, u as usize),
        ),
        edges.contains((u as usize, v as usize)) ==> irregular_step(u, v) || irregular_step(v, u),
{
    let e = (u as usize, v as usize);
    if u <= 9 && v == u + 1 {
        lemma_cycle_next(11, u);
        assert(edges[u] == e);
    }
    lemma_cycle_next(11, 10);
    assert(edges[10] == (10usize, 0usize));
    assert(edges[11] == (0usize, 2usize));
    assert(edges[12] == (5usize, 7usize));
    assert(edges[13] == (11usize, 12usize));
    assert(edges[14] == (12usize, 13usize));
    assert(edges[15] == (11usize, 13usize));
    assert(edges[16] == (12usize, 14usize));
    assert(edges[17] == (13usize, 14usize));
    if edges.contains(e) {
        let i = choose|i: int| 0 <= i < edges.len() && edges[i] == e;
        if i < 11 {
            lemma_cycle_next(11, i);
        }
    }
}

pub(crate) proof fn lemma_power_values()
    ensures
        pow2(0) == 1,
        pow2(1) == 2,
{
    vstd::arithmetic::power2::lemma2_to64();
}

pub(crate) proof fn lemma_double_power(n: nat)
    ensures
        pow2(n + 1) == 2 * pow2(n),
        pow2(n) >= 1,
{
    vstd::arithmetic::power2::lemma_pow2_unfold(n + 1);
    vstd::arithmetic::power2::lemma_pow2_pos(n);
}

pub(crate) proof fn lemma_power_grows(low: nat, high: nat)
    requires
        low <= high,
    ensures
        pow2(low) <= pow2(high),
        1 <= pow2(low),
        low == 1 ==> pow2(low) == 2,
{
    lemma_power_values();
    vstd::arithmetic::power2::lemma_pow2_pos(low);
    if low < high {
        vstd::arithmetic::power2::lemma_pow2_strictly_increases(low, high);
    }
}

proof fn lemma_times_at_least(d: int, x: int)
    requires
        d >= 1,
        x >= 0,
    ensures
        d * x >= x,
{
    assert(d * x >= x) by (nonlinear_arith)
        requires
            d >= 1,
            x >= 0,
    ;
}

/// The next breadth-first level of a tree-star fits into its vertex count.
proof fn lemma_level_fits(d: int, depth: nat, ell: nat, first: int)
    requires
        d >= 1,
        1 <= depth < ell,
        tree_star_order(d, depth) == d + 1 + 2 * (first - 1),
    ensures
        tree_star_order(d, depth + 1) == tree_star_order(d, depth) + 2 * (tree_star_order(d, depth)
            - first),
        tree_star_order(d, depth + 1) <= tree_star_order(d, ell),
{
    let p = pow2(depth) as int;
    lemma_double_power(depth);
    lemma_power_grows(depth + 1, ell);
    assert(d * (2 * p - 1) == 2 * (d * (p - 1)) + d) by (nonlinear_arith);
    assert(d * (2 * p - 1) <= d * (pow2(ell) - 1)) by (nonlinear_arith)
        requires
            d >= 1,
            2 * p <= pow2(ell),
    ;
}

pub(crate) proof fn lemma_count_grows(flags: Seq<bool>, low: int, high: int)
    requires
        0 <= low <= high,
    ensures
        count_true(flags, low) <= count_true(flags, high),
    decreases high - low,
{
    if low < high {
        lemma_count_grows(flags, low, high - 1);
    }
}

proof fn lemma_edges_grow(adjacency: Seq<Seq<bool>>, low: int, high: int)
    requires
        0 <= low <= high,
    ensures
        edges_among(adjacency, low) <= edges_among(adjacency, high),
    decreases high - low,
{
    if low < high {
        lemma_edges_grow(adjacency, low, high - 1);
    }
}

/// Position `step` of arm `arm` starts an arm exactly where `step` is zero.
pub(crate) proof fn lemma_arm_offset(arm: int, arm_len: int, step: int)
    requires
        0 <= arm,
        0 <= step < arm_len,
    ensures
        (arm * arm_len + step) % arm_len == step,
{
    vstd::arithmetic::div_mod::lemma_fundamental_div_mod_converse(
        arm * arm_len + step,
        arm_len,
        arm,
        step,
    );
}

/// A fault among the first `k` edges is the fault of the whole list.
proof fn lemma_fault_persists(edges: Seq<(usize, usize)>, order: usize, k: int)
    requires
        0 <= k <= edges.len(),
        first_fault(edges.take(k), order) is Some,
    ensures
        first_fault(edges, order) == first_fault(edges.take(k), order),
    decreases edges.len() - k,
{
    if k < edges.len() {
        assert(edges.take(k + 1).drop_last() =~= edges.take(k));
        lemma_fault_persists(edges, order, k + 1);
    } else {
        assert(edges.take(k) =~= edges);
    }
}

/// Appending an edge adds its pair, and nothing else, to what is listed.
proof fn lemma_listed_push(edges: Seq<(usize, usize)>, edge: (usize, usize), u: int, v: int)
    requires
        0 <= u <= usize::MAX,
        0 <= v <= usize::MAX,
    ensures
        listed(edges.push(edge), u, v) == (listed(edges, u, v) || (edge.0 == u && edge.1 == v) || (
        edge.0 == v && edge.1 == u)),
{
    let longer = edges.push(edge);
    let forward = (u as usize, v as usize);
    let backward = (v as usize, u as usize);
    assert(longer[edges.len() as int] == edge);
    assert forall|e: (usize, usize)| edges.contains(e) implies longer.contains(e) by {
        let i = choose|i: int| 0 <= i < edges.len() && edges[i] == e;
        assert(longer[i] == e);
    }
    assert forall|e: (usize, usize)| longer.contains(e) && e != edge implies edges.contains(e) by {
        let i = choose|i: int| 0 <= i < longer.len() && longer[i] == e;
        assert(edges[i] == e);
    }
}

/// A list without a self-loop names no pair of equal vertices.
proof fn lemma_no_listed_loop(edges: Seq<(usize, usize)>, u: int)
    requires
        forall|i: int| 0 <= i < edges.len() ==> (#[trigger] edges[i]).0 != edges[i].1,
    ensures
        !listed(edges, u, u),
{
}

/// `order` rows of `order` clear entries.
fn clear_rows(order: usize) -> (rows: Vec<Vec<bool>>)
    ensures
        rows@.len() == order,
        forall|u: int| 0 <= u < order ==> (#[trigger] rows@[u])@.len() == order,
        forall|u: int, v: int| 0 <= u < order && 0 <= v < order ==> !#[trigger] rows@[u]@[v],
{
    let mut rows: Vec<Vec<bool>> = Vec::new();
    while rows.len() < order
        invariant
            rows@.len() <= order,
            forall|u: int| 0 <= u < rows@.len() ==> (#[trigger] rows@[u])@.len() == order,
            forall|u: int, v: int|
                0 <= u < rows@.len() && 0 <= v < order ==> !#[trigger] rows@[u]@[v],
        decreases order - rows@.len(),
    {
        let mut row: Vec<bool> = Vec::new();
        while row.len() < order
            invariant
                row@.len() <= order,
                forall|v: int| 0 <= v < row@.len() ==> !#[trigger] row@[v],
            decreases order - row@.len(),
        {
            row.push(false);
        }
        rows.push(row);
    }
    rows
}

/// Sets entry (`u`, `v`).
fn set_flag(rows: &mut Vec<Vec<bool>>, u: usize, v: usize)
    requires
        u < old(rows)@.len(),
        v < old(rows)@[u as int]@.len(),
    ensures
        final(rows)@.len() == old(rows)@.len(),
        forall|x: int|
            0 <= x < old(rows)@.len() ==> (#[trigger] final(rows)@[x])@ == if x == u {
                old(rows)@[x]@.update(v as int, true)
            } else {
                old(rows)@[x]@
            },
{
    rows[u][v] = true;
}

/// Rejects `value` below `minimum`, naming `parameter` in the error.
pub fn require_at_least(parameter: GraphParameter, minimum: usize, value: usize) -> (result: Result<
    (),
    Error,
>)
    ensures
        result == if value < minimum {
            Err::<(), Error>(too_small(parameter, minimum, value))
        } else {
            Ok(())
        },
{
    if value < minimum {
        return Err(Error::InvalidGraphParameter { parameter, minimum, value });
    }
    Ok(())
}

} // verus!
