//! Laws of the graph families: edge totals, degree profiles, and the
//! handshake identity.

use crate::counting::{
    count_true, lemma_count_bound, lemma_count_gap, lemma_count_is_cardinality, lemma_count_none,
    lemma_count_one, lemma_count_stretch, lemma_count_two, true_indices,
};
use crate::error::{Error, GraphParameter};
use crate::graph::{
    adjacency_of, complete_edge, cycle_edge, degree_of, edge_pairs, edge_total, edges_among,
    first_fault, irregular_edge, irregular_step, lattice_edge, lemma_arm_offset, lemma_cycle_next,
    lemma_double_power, lemma_edge_pairs, lemma_lattice_coordinates, lemma_power_values, listed,
    parent_edge, path_star_parent, simple, too_small, tree_star_order, tree_star_parent, Graph,
};
use vstd::arithmetic::div_mod::lemma_fundamental_div_mod_converse;
use vstd::arithmetic::power2::pow2;
use vstd::prelude::*;
use vstd::set_lib::set_int_range;

verus! {

/// Two edge lists that name the same pairs, in whatever order and direction and
/// however often, describe the same graph.
pub proof fn edge_lists_matter_only_as_pairs(
    order: nat,
    left: Seq<(usize, usize)>,
    right: Seq<(usize, usize)>,
)
    requires
        forall|u: int, v: int|
            0 <= u < order && 0 <= v < order ==> #[trigger] listed(left, u, v) == listed(
                right,
                u,
                v,
            ),
    ensures
        adjacency_of(order, |u: int, v: int| listed(left, u, v)) == adjacency_of(
            order,
            |u: int, v: int| listed(right, u, v),
        ),
{
    assert(adjacency_of(order, |u: int, v: int| listed(left, u, v)) =~~= adjacency_of(
        order,
        |u: int, v: int| listed(right, u, v),
    ));
}

/// The sum of the first `n` degrees.
pub open spec fn degree_total(adjacency: Seq<Seq<bool>>, n: int) -> nat
    decreases n,
{
    if n <= 0 {
        0
    } else {
        degree_total(adjacency, n - 1) + degree_of(adjacency, n - 1)
    }
}

/// The neighbours that the first `vertices` vertices have among the first `n`.
spec fn partial_total(adjacency: Seq<Seq<bool>>, vertices: int, n: int) -> nat
    decreases vertices,
{
    if vertices <= 0 {
        0
    } else {
        partial_total(adjacency, vertices - 1, n) + count_true(adjacency[vertices - 1], n)
    }
}

proof fn lemma_partial_grows(adjacency: Seq<Seq<bool>>, vertices: int, n: int)
    requires
        simple(adjacency),
        0 <= vertices <= adjacency.len(),
        0 <= n < adjacency.len(),
    ensures
        partial_total(adjacency, vertices, n + 1) == partial_total(adjacency, vertices, n)
            + count_true(adjacency[n], vertices),
    decreases vertices,
{
    if vertices > 0 {
        lemma_partial_grows(adjacency, vertices - 1, n);
        assert(adjacency[vertices - 1][n] == adjacency[n][vertices - 1]);
    }
}

proof fn lemma_partial_is_twice(adjacency: Seq<Seq<bool>>, n: int)
    requires
        simple(adjacency),
        0 <= n <= adjacency.len(),
    ensures
        partial_total(adjacency, n, n) == 2 * edges_among(adjacency, n),
    decreases n,
{
    if n > 0 {
        lemma_partial_is_twice(adjacency, n - 1);
        lemma_partial_grows(adjacency, n - 1, n - 1);
        assert(!adjacency[n - 1][n - 1]);
    }
}

proof fn lemma_partial_is_degrees(adjacency: Seq<Seq<bool>>, vertices: int)
    requires
        0 <= vertices <= adjacency.len(),
    ensures
        partial_total(adjacency, vertices, adjacency.len() as int) == degree_total(
            adjacency,
            vertices,
        ),
    decreases vertices,
{
    if vertices > 0 {
        lemma_partial_is_degrees(adjacency, vertices - 1);
    }
}

/// The degrees of a graph sum to twice its number of edges.
pub proof fn degrees_sum_to_twice_the_edges(adjacency: Seq<Seq<bool>>)
    requires
        simple(adjacency),
    ensures
        degree_total(adjacency, adjacency.len() as int) == 2 * edge_total(adjacency),
{
    lemma_partial_is_twice(adjacency, adjacency.len() as int);
    lemma_partial_is_degrees(adjacency, adjacency.len() as int);
}

proof fn lemma_edges_bound(adjacency: Seq<Seq<bool>>, n: int)
    requires
        0 <= n,
    ensures
        2 * edges_among(adjacency, n) <= n * (n - 1),
    decreases n,
{
    if n > 0 {
        lemma_edges_bound(adjacency, n - 1);
        lemma_count_bound(adjacency[n - 1], n - 1);
        assert(n * (n - 1) == (n - 1) * (n - 2) + 2 * (n - 1)) by (nonlinear_arith);
    } else {
        assert(n * (n - 1) == 0) by (nonlinear_arith)
            requires
                n == 0,
        ;
    }
}

/// A graph has at most one edge per pair of vertices.
pub proof fn edges_at_most_the_pairs(adjacency: Seq<Seq<bool>>)
    ensures
        2 * edge_total(adjacency) <= adjacency.len() * (adjacency.len() - 1),
{
    lemma_edges_bound(adjacency, adjacency.len() as int);
}

proof fn lemma_tree_edges(order: nat, parent: spec_fn(int) -> int, n: int)
    requires
        1 <= n <= order,
        forall|v: int| 1 <= v < order ==> 0 <= #[trigger] parent(v) < v,
    ensures
        edges_among(adjacency_of(order, parent_edge(parent)), n) == n - 1,
    decreases n,
{
    let adjacency = adjacency_of(order, parent_edge(parent));
    reveal_with_fuel(edges_among, 2);
    if n > 1 {
        lemma_tree_edges(order, parent, n - 1);
        let v = n - 1;
        assert(0 <= parent(v) < v);
        assert forall|u: int| 0 <= u < v implies (adjacency[v][u] <==> u == parent(v)) by {
            if u >= 1 {
                assert(0 <= parent(u) < u);
            }
        }
        lemma_count_one(adjacency[v], v, parent(v));
    }
}

/// A graph that joins every vertex but the root to one earlier vertex has one
/// edge fewer than it has vertices.
pub proof fn tree_has_one_edge_per_descendant(order: nat, parent: spec_fn(int) -> int)
    requires
        order >= 1,
        forall|v: int| 1 <= v < order ==> 0 <= #[trigger] parent(v) < v,
    ensures
        edge_total(adjacency_of(order, parent_edge(parent))) == order - 1,
{
    lemma_tree_edges(order, parent, order as int);
}

proof fn lemma_path_star_parents(order: int, arm_len: int)
    requires
        arm_len >= 1,
    ensures
        forall|v: int|
            1 <= v < order ==> 0 <= #[trigger] (path_star_parent(arm_len)(v)) < v,
{
    assert forall|v: int| 1 <= v < order implies 0 <= #[trigger] (path_star_parent(arm_len)(v)) < v by {
        if v == 1 {
            vstd::arithmetic::div_mod::lemma_small_mod(0, arm_len as nat);
        }
    }
}

/// A path-star has `arms * arm_len` edges.
pub proof fn path_star_edge_total(arms: nat, arm_len: nat)
    requires
        arms >= 1,
        arm_len >= 1,
    ensures
        edge_total(
            adjacency_of(1 + arms * arm_len, parent_edge(path_star_parent(arm_len as int))),
        ) == arms * arm_len,
{
    assert(arms * arm_len >= 1) by (nonlinear_arith)
        requires
            arms >= 1,
            arm_len >= 1,
    ;
    lemma_path_star_parents((1 + arms * arm_len) as int, arm_len as int);
    tree_has_one_edge_per_descendant(1 + arms * arm_len, path_star_parent(arm_len as int));
}

proof fn lemma_path_star_root(arms: nat, arm_len: nat, arm: nat)
    requires
        arm_len >= 1,
        arm <= arms,
    ensures
        count_true(
            adjacency_of(1 + arms * arm_len, parent_edge(path_star_parent(arm_len as int)))[0],
            (1 + arm * arm_len) as int,
        ) == arm,
    decreases arm,
{
    let parent = path_star_parent(arm_len as int);
    let row = adjacency_of(1 + arms * arm_len, parent_edge(parent))[0];
    if arm == 0 {
        assert(0 * arm_len == 0) by (nonlinear_arith);
        reveal_with_fuel(count_true, 2);
        assert(arms * arm_len >= 0) by (nonlinear_arith);
        assert(!row[0]);
    } else {
        let before = (arm - 1) as nat;
        lemma_path_star_root(arms, arm_len, before);
        let start = (1 + before * arm_len) as int;
        assert(before * arm_len + arm_len == arm * arm_len) by (nonlinear_arith)
            requires
                before == arm - 1,
        ;
        assert(arm * arm_len <= arms * arm_len) by (nonlinear_arith)
            requires
                arm <= arms,
        ;
        assert(before * arm_len >= 0) by (nonlinear_arith);
        lemma_arm_offset(before as int, arm_len as int, 0);
        assert(row[start]);
        assert(count_true(row, start + 1) == count_true(row, start) + 1);
        assert forall|i: int| start + 1 <= i < start + arm_len implies !row[i] by {
            lemma_arm_offset(before as int, arm_len as int, i - start);
            assert((i - 1) % (arm_len as int) == i - start);
        }
        lemma_count_gap(row, start + 1, start + arm_len);
    }
}

/// The root of a path-star is adjacent to one vertex per arm.
pub proof fn path_star_root_degree(arms: nat, arm_len: nat)
    requires
        arms >= 1,
        arm_len >= 1,
    ensures
        degree_of(
            adjacency_of(1 + arms * arm_len, parent_edge(path_star_parent(arm_len as int))),
            0,
        ) == arms,
{
    lemma_path_star_root(arms, arm_len, arms);
}

/// Away from the root, a path-star vertex has degree 1 where it ends its arm
/// and degree 2 elsewhere.
pub proof fn path_star_arm_degrees(arms: nat, arm_len: nat, arm: nat, step: nat)
    requires
        arm < arms,
        step < arm_len,
    ensures
        1 + arm * arm_len + step < 1 + arms * arm_len,
        degree_of(
            adjacency_of(1 + arms * arm_len, parent_edge(path_star_parent(arm_len as int))),
            (1 + arm * arm_len + step) as int,
        ) == if step + 1 == arm_len {
            1nat
        } else {
            2nat
        },
{
    let order = 1 + arms * arm_len;
    let parent = path_star_parent(arm_len as int);
    let v = (1 + arm * arm_len + step) as int;
    assert(arm * arm_len + arm_len == (arm + 1) * arm_len) by (nonlinear_arith);
    assert((arm + 1) * arm_len <= arms * arm_len) by (nonlinear_arith)
        requires
            arm + 1 <= arms,
    ;
    assert(arm * arm_len >= 0) by (nonlinear_arith);
    lemma_arm_offset(arm as int, arm_len as int, step as int);
    lemma_path_star_parents(order as int, arm_len as int);
    let adjacency = adjacency_of(order, parent_edge(parent));
    let row = adjacency[v];
    let below = parent(v);
    assert(0 <= below < v);
    if step + 1 == arm_len {
        assert forall|u: int| 0 <= u < order implies (row[u] <==> u == below) by {
            if u == v + 1 {
                vstd::arithmetic::div_mod::lemma_fundamental_div_mod_converse(
                    v,
                    arm_len as int,
                    (arm + 1) as int,
                    0,
                );
                assert(parent(u) == 0);
            } else if u >= 1 {
                assert(0 <= parent(u) < u);
            }
        }
        lemma_count_one(row, order as int, below);
    } else {
        lemma_arm_offset(arm as int, arm_len as int, (step + 1) as int);
        assert(parent(v + 1) == v);
        assert forall|u: int| 0 <= u < order implies (row[u] <==> u == below || u == v + 1) by {
            if u >= 1 {
                assert(0 <= parent(u) < u);
            }
        }
        lemma_count_two(row, order as int, below, v + 1);
    }
}

proof fn lemma_arm_of(arm: nat, arm_len: nat, step: nat)
    requires
        step < arm_len,
    ensures
        (arm * arm_len + step) as int / (arm_len as int) == arm,
{
    assert(arm * arm_len + step == arm_len * arm + step) by (nonlinear_arith);
    vstd::arithmetic::div_mod::lemma_fundamental_div_mod_converse(
        (arm * arm_len + step) as int,
        arm_len as int,
        arm as int,
        step as int,
    );
}

proof fn lemma_no_step_between_arms(
    arm_len: nat,
    arm: nat,
    step: nat,
    other_arm: nat,
    other_step: nat,
)
    requires
        step < arm_len,
        other_step < arm_len,
        arm != other_arm,
    ensures
        (1 + arm * arm_len + step) as int != path_star_parent(arm_len as int)(
            (1 + other_arm * arm_len + other_step) as int,
        ),
{
    assert(arm * arm_len >= 0) by (nonlinear_arith);
    assert(other_arm * arm_len >= 0) by (nonlinear_arith);
    lemma_arm_offset(other_arm as int, arm_len as int, other_step as int);
    lemma_arm_of(arm, arm_len, step);
    if other_step > 0 {
        lemma_arm_of(other_arm, arm_len, (other_step - 1) as nat);
    }
}

/// The arms of a path-star are disjoint: no edge joins two of them.
pub proof fn path_star_arms_are_disjoint(
    arms: nat,
    arm_len: nat,
    arm: nat,
    step: nat,
    other_arm: nat,
    other_step: nat,
)
    requires
        arm < arms,
        other_arm < arms,
        arm != other_arm,
        step < arm_len,
        other_step < arm_len,
    ensures
        !adjacency_of(1 + arms * arm_len, parent_edge(path_star_parent(arm_len as int)))[(1 + arm
            * arm_len + step) as int][(1 + other_arm * arm_len + other_step) as int],
{
    assert(arm * arm_len + arm_len == (arm + 1) * arm_len) by (nonlinear_arith);
    assert((arm + 1) * arm_len <= arms * arm_len) by (nonlinear_arith)
        requires
            arm + 1 <= arms,
    ;
    assert(other_arm * arm_len + arm_len == (other_arm + 1) * arm_len) by (nonlinear_arith);
    assert((other_arm + 1) * arm_len <= arms * arm_len) by (nonlinear_arith)
        requires
            other_arm + 1 <= arms,
    ;
    assert(arm * arm_len >= 0) by (nonlinear_arith);
    assert(other_arm * arm_len >= 0) by (nonlinear_arith);
    lemma_no_step_between_arms(arm_len, arm, step, other_arm, other_step);
    lemma_no_step_between_arms(arm_len, other_arm, other_step, arm, step);
}

proof fn lemma_cycle_edges(n: nat, k: int)
    requires
        n >= 3,
        1 <= k <= n,
    ensures
        edges_among(adjacency_of(n, cycle_edge(n as int)), k) == if k < n {
            k - 1
        } else {
            k
        },
    decreases k,
{
    let adjacency = adjacency_of(n, cycle_edge(n as int));
    reveal_with_fuel(edges_among, 2);
    if k > 1 {
        lemma_cycle_edges(n, k - 1);
        let v = k - 1;
        lemma_cycle_next(n as int, v);
        assert forall|u: int| 0 <= u < v implies (adjacency[v][u] <==> u == v - 1 || (k == n && u
            == 0)) by {
            lemma_cycle_next(n as int, u);
        }
        if k < n {
            lemma_count_one(adjacency[v], v, v - 1);
        } else {
            lemma_count_two(adjacency[v], v, 0, v - 1);
        }
    }
}

/// The cycle has as many edges as vertices.
pub proof fn cycle_edge_total(n: nat)
    requires
        n >= 3,
    ensures
        edge_total(adjacency_of(n, cycle_edge(n as int))) == n,
{
    lemma_cycle_edges(n, n as int);
}

/// Every vertex of a cycle has degree 2.
pub proof fn cycle_is_two_regular(n: nat, v: int)
    requires
        n >= 3,
        0 <= v < n,
    ensures
        degree_of(adjacency_of(n, cycle_edge(n as int)), v) == 2,
{
    let row = adjacency_of(n, cycle_edge(n as int))[v];
    lemma_cycle_next(n as int, v);
    let next = (v + 1) % (n as int);
    let previous = if v == 0 {
        n - 1
    } else {
        v - 1
    };
    assert forall|u: int| 0 <= u < n implies (row[u] <==> u == next || u == previous) by {
        lemma_cycle_next(n as int, u);
    }
    if next < previous {
        lemma_count_two(row, n as int, next, previous);
    } else {
        lemma_count_two(row, n as int, previous, next);
    }
}

/// The lattice edges among the vertices before (`r`, `c`).
spec fn lattice_progress(cols: int, r: int, c: int) -> int {
    r * (cols - 1) + (if c == 0 {
        0
    } else {
        c - 1
    }) + (if r == 0 {
        0
    } else {
        (r - 1) * cols + c
    })
}

proof fn lemma_lattice_edges(rows: nat, cols: nat, r: int, c: int)
    requires
        cols >= 1,
        0 <= r,
        0 <= c < cols,
        r * cols + c <= rows * cols,
    ensures
        edges_among(adjacency_of(rows * cols, lattice_edge(cols as int)), r * cols + c)
            == lattice_progress(cols as int, r, c),
    decreases r, c,
{
    let adjacency = adjacency_of(rows * cols, lattice_edge(cols as int));
    let n = r * cols + c;
    if r == 0 && c == 0 {
        assert(0 * cols == 0) by (nonlinear_arith);
        assert(0 * (cols - 1) == 0) by (nonlinear_arith);
    } else {
        // The vertex just before, in coordinates.
        let (s, e) = if c > 0 {
            (r, c - 1)
        } else {
            (r - 1, cols - 1)
        };
        let v = n - 1;
        assert(r * cols - cols == (r - 1) * cols) by (nonlinear_arith);
        assert(s * cols + e == v);
        lemma_lattice_edges(rows, cols, s, e);
        vstd::arithmetic::div_mod::lemma_fundamental_div_mod_converse(v, cols as int, s, e);
        assert(s * cols >= 0) by (nonlinear_arith)
            requires
                s >= 0,
                cols >= 1,
        ;
        let row = adjacency[v];
        assert forall|u: int| 0 <= u < v implies (row[u] <==> (e > 0 && u == v - 1) || (s > 0 && u
            == v - cols)) by {
            lemma_lattice_coordinates(cols as int, u, v);
            lemma_lattice_coordinates(cols as int, v, u);
            if e > 0 && u == v - 1 {
                vstd::arithmetic::div_mod::lemma_fundamental_div_mod_converse(
                    u,
                    cols as int,
                    s,
                    e - 1,
                );
            }
        }
        if s > 0 {
            assert(s * cols >= cols) by (nonlinear_arith)
                requires
                    s >= 1,
                    cols >= 1,
            ;
        }
        if s > 0 && e > 0 {
            lemma_count_two(row, v, v - cols, v - 1);
        } else if s > 0 {
            lemma_count_one(row, v, v - cols);
        } else if e > 0 {
            lemma_count_one(row, v, v - 1);
        } else {
            lemma_count_none(row, v);
        }
        if c == 0 {
            assert(r * (cols - 1) == (r - 1) * (cols - 1) + (cols - 1)) by (nonlinear_arith);
            if r == 1 {
                assert((r - 1) * cols == 0) by (nonlinear_arith)
                    requires
                        r == 1,
                ;
            } else {
                assert((r - 1) * cols == (r - 2) * cols + cols) by (nonlinear_arith);
            }
        }
    }
}

/// A grid has `rows * (cols - 1) + cols * (rows - 1)` edges.
pub proof fn grid_edge_total(rows: nat, cols: nat)
    requires
        rows >= 1,
        cols >= 1,
    ensures
        edge_total(adjacency_of(rows * cols, lattice_edge(cols as int))) == rows * (cols - 1)
            + cols * (rows - 1),
{
    lemma_lattice_edges(rows, cols, rows as int, 0);
    assert((rows - 1) * cols == cols * (rows - 1)) by (nonlinear_arith);
}

proof fn lemma_complete_edges(n: nat, k: int)
    requires
        0 <= k <= n,
    ensures
        2 * edges_among(adjacency_of(n, complete_edge()), k) == k * (k - 1),
    decreases k,
{
    if k > 0 {
        lemma_complete_edges(n, k - 1);
        let row = adjacency_of(n, complete_edge())[k - 1];
        lemma_count_stretch(row, 0, k - 1);
        assert(k * (k - 1) == (k - 1) * (k - 2) + 2 * (k - 1)) by (nonlinear_arith);
    } else {
        assert(k * (k - 1) == 0) by (nonlinear_arith)
            requires
                k == 0,
        ;
    }
}

/// The complete graph has an edge for every pair of vertices.
pub proof fn complete_edge_total(n: nat)
    ensures
        2 * edge_total(adjacency_of(n, complete_edge())) == n * (n - 1),
{
    lemma_complete_edges(n, n as int);
}

/// Every vertex of a complete graph is adjacent to all the others.
pub proof fn complete_degrees(n: nat, v: int)
    requires
        0 <= v < n,
    ensures
        degree_of(adjacency_of(n, complete_edge()), v) == n - 1,
{
    let row = adjacency_of(n, complete_edge())[v];
    lemma_count_stretch(row, 0, v);
    assert(!row[v]);
    assert(count_true(row, v + 1) == count_true(row, v));
    lemma_count_stretch(row, v + 1, n as int);
}

/// The two components of the irregular graph share no edge.
pub proof fn irregular_components_are_disjoint(u: int, v: int)
    requires
        0 <= u < 11,
        11 <= v < 15,
    ensures
        !adjacency_of(15, irregular_edge())[u][v],
        !adjacency_of(15, irregular_edge())[v][u],
{
}

/// The irregular graph has 18 edges.
pub proof fn irregular_edge_total()
    ensures
        edge_total(adjacency_of(15, irregular_edge())) == 18,
{
    let a = adjacency_of(15, irregular_edge());
    assert forall|u: int, v: int| 0 <= u < v < 15 implies #[trigger] a[v][u] == irregular_step(u, v) by {}
    lemma_count_one(a[1], 1, 0);
    lemma_count_two(a[2], 2, 0, 1);
    lemma_count_one(a[3], 3, 2);
    lemma_count_one(a[4], 4, 3);
    lemma_count_one(a[5], 5, 4);
    lemma_count_one(a[6], 6, 5);
    lemma_count_two(a[7], 7, 5, 6);
    lemma_count_one(a[8], 8, 7);
    lemma_count_one(a[9], 9, 8);
    lemma_count_two(a[10], 10, 0, 9);
    lemma_count_none(a[11], 11);
    lemma_count_one(a[12], 12, 11);
    lemma_count_two(a[13], 13, 11, 12);
    lemma_count_two(a[14], 14, 12, 13);
    reveal_with_fuel(edges_among, 16);
}

proof fn lemma_tree_star_parents(d: int, order: int)
    requires
        d >= 1,
    ensures
        forall|v: int| 1 <= v < order ==> 0 <= #[trigger] (tree_star_parent(d)(v)) < v,
{
}

/// A tree-star has one edge fewer than it has vertices.
pub proof fn tree_star_edge_total(d: nat, ell: nat)
    requires
        d >= 1,
        ell >= 1,
    ensures
        edge_total(
            adjacency_of(
                tree_star_order(d as int, ell) as nat,
                parent_edge(tree_star_parent(d as int)),
            ),
        ) == tree_star_order(d as int, ell) - 1,
{
    lemma_tree_star_order_positive(d as int, ell);
    lemma_tree_star_parents(d as int, tree_star_order(d as int, ell));
    tree_has_one_edge_per_descendant(
        tree_star_order(d as int, ell) as nat,
        tree_star_parent(d as int),
    );
}

proof fn lemma_tree_star_order_positive(d: int, ell: nat)
    requires
        d >= 1,
    ensures
        tree_star_order(d, ell) >= 1,
        ell >= 1 ==> tree_star_order(d, ell) >= d + 1,
{
    crate::graph::lemma_power_grows(0, ell);
    assert(d * (pow2(ell) - 1) >= 0) by (nonlinear_arith)
        requires
            d >= 1,
            pow2(ell) >= 1,
    ;
    if ell >= 1 {
        crate::graph::lemma_power_grows(1, ell);
        assert(d * (pow2(ell) - 1) >= d) by (nonlinear_arith)
            requires
                d >= 1,
                pow2(ell) >= 2,
        ;
    }
}

/// The number of edges between a tree-star vertex and the root.
pub open spec fn tree_star_depth(d: int, v: int) -> nat
    decreases v,
    when d >= 1
{
    if v <= 0 {
        0
    } else {
        tree_star_depth(d, tree_star_parent(d)(v)) + 1
    }
}

proof fn lemma_order_step(d: int, k: nat)
    requires
        k >= 1,
    ensures
        tree_star_order(d, k) == 1 + 2 * (tree_star_order(d, (k - 1) as nat) - 1) + d,
{
    lemma_double_power((k - 1) as nat);
    let p = pow2((k - 1) as nat) as int;
    assert(d * (2 * p - 1) == 2 * (d * (p - 1)) + d) by (nonlinear_arith);
}

/// A breadth-first level of a tree-star holds the vertices of one depth.
proof fn lemma_level_depth(d: int, k: nat, v: int)
    requires
        d >= 1,
        k >= 1,
        tree_star_order(d, (k - 1) as nat) <= v < tree_star_order(d, k),
    ensures
        tree_star_depth(d, v) == k,
    decreases k,
{
    lemma_tree_star_order_positive(d, (k - 1) as nat);
    lemma_power_values();
    assert(tree_star_order(d, 0) == 1) by {
        assert(d * (pow2(0) - 1) == 0) by (nonlinear_arith)
            requires
                pow2(0) == 1,
        ;
    }
    lemma_order_step(d, k);
    if k == 1 {
        assert(tree_star_parent(d)(v) == 0);
        reveal_with_fuel(tree_star_depth, 2);
    } else {
        let above = tree_star_parent(d)(v);
        lemma_order_step(d, (k - 1) as nat);
        lemma_tree_star_order_positive(d, (k - 2) as nat);
        assert(v >= d + 1);
        lemma_level_depth(d, (k - 1) as nat, above);
    }
}

/// Every tree-star vertex other than the root lies on one of the levels.
proof fn lemma_level_of(d: int, ell: nat, v: int) -> (k: nat)
    requires
        d >= 1,
        1 <= v < tree_star_order(d, ell),
    ensures
        1 <= k <= ell,
        tree_star_order(d, (k - 1) as nat) <= v < tree_star_order(d, k),
    decreases ell,
{
    if ell == 0 {
        lemma_power_values();
        assert(d * (pow2(0) - 1) == 0) by (nonlinear_arith)
            requires
                pow2(0) == 1,
        ;
        assert(false);
        0
    } else if v >= tree_star_order(d, (ell - 1) as nat) {
        ell
    } else {
        lemma_level_of(d, (ell - 1) as nat, v)
    }
}

proof fn lemma_order_grows(d: int, low: nat, high: nat)
    requires
        d >= 1,
        low <= high,
    ensures
        tree_star_order(d, low) <= tree_star_order(d, high),
{
    crate::graph::lemma_power_grows(low, high);
    assert(d * (pow2(low) - 1) <= d * (pow2(high) - 1)) by (nonlinear_arith)
        requires
            d >= 1,
            pow2(low) <= pow2(high),
    ;
}

/// A tree-star is numbered breadth-first: depths do not fall as indices grow.
pub proof fn tree_star_numbering_is_breadth_first(d: nat, ell: nat, u: int, v: int)
    requires
        d >= 1,
        0 <= u <= v < tree_star_order(d as int, ell),
    ensures
        tree_star_depth(d as int, u) <= tree_star_depth(d as int, v),
{
    if u >= 1 {
        let near = lemma_level_of(d as int, ell, u);
        let far = lemma_level_of(d as int, ell, v);
        lemma_level_depth(d as int, near, u);
        lemma_level_depth(d as int, far, v);
        if near > far {
            lemma_order_grows(d as int, far, (near - 1) as nat);
        }
    }
}

proof fn lemma_count_three(flags: Seq<bool>, n: int, low: int, middle: int, high: int)
    requires
        0 <= low < middle < high < n,
        forall|i: int| 0 <= i < n ==> (flags[i] <==> i == low || i == middle || i == high),
    ensures
        count_true(flags, n) == 3,
    decreases n,
{
    if high == n - 1 {
        lemma_count_two(flags, n - 1, low, middle);
    } else {
        lemma_count_three(flags, n - 1, low, middle, high);
    }
}

/// The root of a tree-star has degree `d`.
pub proof fn tree_star_root_degree(d: nat, ell: nat)
    requires
        d >= 1,
        ell >= 1,
    ensures
        degree_of(
            adjacency_of(
                tree_star_order(d as int, ell) as nat,
                parent_edge(tree_star_parent(d as int)),
            ),
            0,
        ) == d,
{
    let order = tree_star_order(d as int, ell);
    lemma_tree_star_order_positive(d as int, ell);
    let row = adjacency_of(order as nat, parent_edge(tree_star_parent(d as int)))[0];
    assert(!row[0]);
    reveal_with_fuel(count_true, 2);
    assert(count_true(row, 1) == 0);
    lemma_count_stretch(row, 1, (d + 1) as int);
    lemma_count_gap(row, (d + 1) as int, order);
}

/// Below the root, a tree-star vertex lies at a depth from 1 to `ell`; it is a
/// leaf of degree 1 where that depth is `ell`, and elsewhere it has degree 3:
/// one parent and two children. The deepest level has `d * 2^(ell - 1)`
/// vertices.
pub proof fn tree_star_degree_profile(d: nat, ell: nat, v: int)
    requires
        d >= 1,
        ell >= 1,
        1 <= v < tree_star_order(d as int, ell),
    ensures
        1 <= tree_star_depth(d as int, v) <= ell,
        tree_star_depth(d as int, v) == ell <==> v >= tree_star_order(d as int, (ell - 1) as nat),
        degree_of(
            adjacency_of(
                tree_star_order(d as int, ell) as nat,
                parent_edge(tree_star_parent(d as int)),
            ),
            v,
        ) == if tree_star_depth(d as int, v) == ell {
            1nat
        } else {
            3nat
        },
        tree_star_order(d as int, ell) - tree_star_order(d as int, (ell - 1) as nat) == d * pow2(
            (ell - 1) as nat,
        ),
{
    let order = tree_star_order(d as int, ell);
    let inner = tree_star_order(d as int, (ell - 1) as nat);
    let parent = tree_star_parent(d as int);
    lemma_order_step(d as int, ell);
    assert(order - inner == d * pow2((ell - 1) as nat)) by {
        let p = pow2((ell - 1) as nat) as int;
        assert(d * (p - 1) == d * p - d) by (nonlinear_arith);
    }
    let k = lemma_level_of(d as int, ell, v);
    lemma_level_depth(d as int, k, v);
    if k < ell {
        lemma_order_grows(d as int, k, (ell - 1) as nat);
    }
    lemma_tree_star_parents(d as int, order);
    let row = adjacency_of(order as nat, parent_edge(parent))[v];
    let above = parent(v);
    assert(0 <= above < v);
    let child = d + 1 + 2 * (v - 1);
    if k == ell {
        assert(child >= order);
        assert forall|u: int| 0 <= u < order implies (row[u] <==> u == above) by {}
        lemma_count_one(row, order, above);
    } else {
        assert(child + 1 < order);
        assert(parent(child) == v);
        assert(parent(child + 1) == v);
        assert forall|u: int| 0 <= u < order implies (row[u] <==> u == above || u == child || u
            == child + 1) by {}
        lemma_count_three(row, order, above, child, child + 1);
    }
}

/// A degree is the number of neighbours, and the edge total the number of
/// adjacent pairs.
pub proof fn totals_count_neighbours_and_pairs(adjacency: Seq<Seq<bool>>, v: int)
    requires
        adjacency.len() <= usize::MAX,
    ensures
        degree_of(adjacency, v) == set_int_range(0, adjacency.len() as int).filter(
            |w: int| adjacency[v][w],
        ).len(),
        edge_total(adjacency) == Set::new(
            |pair: (usize, usize)|
                pair.0 < pair.1 && pair.1 < adjacency.len()
                    && adjacency[pair.1 as int][pair.0 as int],
        ).len(),
{
    let n = adjacency.len() as int;
    lemma_count_is_cardinality(adjacency[v], n);
    assert(true_indices(adjacency[v], n) =~= set_int_range(0, n).filter(
        |w: int| adjacency[v][w],
    ));
    lemma_edge_pairs(adjacency, n);
    assert(edge_pairs(adjacency, n) =~= Set::new(
        |pair: (usize, usize)|
            pair.0 < pair.1 && pair.1 < adjacency.len()
                && adjacency[pair.1 as int][pair.0 as int],
    ));
}

/// The adjacency of a relation holds it entry by entry.
pub proof fn adjacency_holds_its_relation(
    order: nat,
    joined: spec_fn(int, int) -> bool,
    u: int,
    v: int,
)
    requires
        0 <= u < order,
        0 <= v < order,
    ensures
        adjacency_of(order, joined).len() == order,
        adjacency_of(order, joined)[u].len() == order,
        adjacency_of(order, joined)[u][v] == joined(u, v),
{
}

/// A graph is undirected and has no loops: adjacency goes both ways, and no
/// vertex is its own neighbour.
pub proof fn graphs_are_undirected_and_loop_free(adjacency: Seq<Seq<bool>>, u: int, v: int)
    requires
        simple(adjacency),
        0 <= u < adjacency.len(),
        0 <= v < adjacency.len(),
    ensures
        adjacency[u].len() == adjacency.len(),
        adjacency[u][v] == adjacency[v][u],
        !adjacency[u][u],
{
}

/// An edge list joins exactly the pairs that occur in it, in one direction or
/// the other.
pub proof fn edge_lists_join_their_pairs(edges: Seq<(usize, usize)>, u: usize, v: usize)
    ensures
        listed(edges, u as int, v as int) <==> exists|i: int|
            0 <= i < edges.len() && ((#[trigger] edges[i]).0 == u && edges[i].1 == v || edges[i].0
                == v && edges[i].1 == u),
{
    if edges.contains((u, v)) {
        let i = choose|i: int| 0 <= i < edges.len() && edges[i] == (u, v);
        assert(edges[i].0 == u && edges[i].1 == v);
    }
    if edges.contains((v, u)) {
        let i = choose|i: int| 0 <= i < edges.len() && edges[i] == (v, u);
        assert(edges[i].0 == v && edges[i].1 == u);
    }
    if exists|i: int|
        0 <= i < edges.len() && ((#[trigger] edges[i]).0 == u && edges[i].1 == v || edges[i].0 == v
            && edges[i].1 == u) {
        let i = choose|i: int|
            0 <= i < edges.len() && ((#[trigger] edges[i]).0 == u && edges[i].1 == v || edges[i].0
                == v && edges[i].1 == u);
        assert(edges[i] == (u, v) || edges[i] == (v, u));
    }
}

/// An edge list is taken where every edge joins two different vertices within
/// the order, and is otherwise refused for the first edge that does not: as a
/// loop where its ends are equal, and else as out of bounds.
pub proof fn edge_lists_are_refused_for_their_first_fault(
    edges: Seq<(usize, usize)>,
    order: usize,
    i: int,
)
    requires
        0 <= i < edges.len(),
        forall|k: int|
            0 <= k < i ==> (#[trigger] edges[k]).0 != edges[k].1 && edges[k].0 < order
                && edges[k].1 < order,
    ensures
        edges[i].0 == edges[i].1 ==> first_fault(edges, order) == Some(
            Error::SelfLoop { vertex: edges[i].0 },
        ),
        edges[i].0 != edges[i].1 && (edges[i].0 >= order || edges[i].1 >= order) ==> first_fault(
            edges,
            order,
        ) == Some(Error::EdgeOutOfBounds { u: edges[i].0, v: edges[i].1, order }),
        i == edges.len() - 1 && edges[i].0 != edges[i].1 && edges[i].0 < order && edges[i].1
            < order ==> first_fault(edges, order) is None,
        first_fault(Seq::empty(), order) is None,
    decreases edges.len(),
{
    let before = edges.drop_last();
    if i < before.len() {
        assert forall|k: int| 0 <= k < i implies (#[trigger] before[k]).0 != before[k].1
            && before[k].0 < order && before[k].1 < order by {
            assert(before[k] == edges[k]);
        }
        edge_lists_are_refused_for_their_first_fault(before, order, i);
    } else if before.len() > 0 {
        assert forall|k: int| 0 <= k < before.len() implies (#[trigger] before[k]).0 != before[k].1
            && before[k].0 < order && before[k].1 < order by {
            assert(before[k] == edges[k]);
        }
        edge_lists_are_refused_for_their_first_fault(before, order, before.len() - 1);
    } else {
        assert(before =~= Seq::empty());
    }
}

/// A refused parameter is reported with its name, its minimum and its value.
pub proof fn refusals_name_their_parameter(
    parameter: GraphParameter,
    minimum: usize,
    value: usize,
)
    ensures
        too_small(parameter, minimum, value) == (Error::InvalidGraphParameter {
            parameter,
            minimum,
            value,
        }),
{
}

/// A cycle joins each vertex to the next, and the last to the first, and nothing
/// else.
pub proof fn cycles_join_successors(n: nat, u: int, v: int)
    requires
        n >= 3,
        0 <= u < n,
        0 <= v < n,
    ensures
        adjacency_of(n, cycle_edge(n as int))[u][v] <==> v == u + 1 || u == v + 1 || (u == 0 && v
            == n - 1) || (v == 0 && u == n - 1),
{
    lemma_cycle_next(n as int, u);
    lemma_cycle_next(n as int, v);
}

/// A grid joins the cells that share a side, and nothing else: cell (`r`, `c`)
/// is vertex `r * cols + c`.
pub proof fn grids_join_cells_that_share_a_side(
    rows: nat,
    cols: nat,
    r: int,
    c: int,
    s: int,
    e: int,
)
    requires
        0 <= r < rows,
        0 <= s < rows,
        0 <= c < cols,
        0 <= e < cols,
    ensures
        0 <= r * cols + c < rows * cols,
        0 <= s * cols + e < rows * cols,
        adjacency_of(rows * cols, lattice_edge(cols as int))[r * cols + c][s * cols + e] <==> (r
            == s && (e == c + 1 || c == e + 1)) || (c == e && (s == r + 1 || r == s + 1)),
{
    let width = cols as int;
    assert(0 <= r * cols && r * cols + cols <= rows * cols) by (nonlinear_arith)
        requires
            0 <= r,
            r + 1 <= rows,
            cols >= 0,
    ;
    assert(0 <= s * cols && s * cols + cols <= rows * cols) by (nonlinear_arith)
        requires
            0 <= s,
            s + 1 <= rows,
            cols >= 0,
    ;
    lemma_fundamental_div_mod_converse(r * cols + c, width, r, c);
    lemma_fundamental_div_mod_converse(s * cols + e, width, s, e);
}

/// A path-star joins its root, vertex 0, to the first vertex of each arm, each
/// vertex of an arm to the next one of that arm, and nothing else: vertex `step`
/// of arm `arm` is `1 + arm * arm_len + step`.
pub proof fn path_stars_join_along_their_arms(
    arms: nat,
    arm_len: nat,
    arm: int,
    step: int,
    other_arm: int,
    other_step: int,
)
    requires
        0 <= arm < arms,
        0 <= other_arm < arms,
        0 <= step < arm_len,
        0 <= other_step < arm_len,
    ensures
        0 <= arm * arm_len + step < arms * arm_len,
        0 <= other_arm * arm_len + other_step < arms * arm_len,
        ({
            let rows = adjacency_of(
                1 + arms * arm_len,
                parent_edge(path_star_parent(arm_len as int)),
            );
            let v = 1 + arm * arm_len + step;
            let w = 1 + other_arm * arm_len + other_step;
            &&& rows[0][v] <==> step == 0
            &&& rows[v][w] <==> arm == other_arm && (other_step == step + 1 || step == other_step
                + 1)
        }),
{
    let len = arm_len as int;
    assert(0 <= arm * arm_len && arm * arm_len + arm_len <= arms * arm_len) by (nonlinear_arith)
        requires
            0 <= arm,
            arm + 1 <= arms,
            arm_len >= 0,
    ;
    assert(0 <= other_arm * arm_len && other_arm * arm_len + arm_len <= arms * arm_len)
        by (nonlinear_arith)
        requires
            0 <= other_arm,
            other_arm + 1 <= arms,
            arm_len >= 0,
    ;
    lemma_fundamental_div_mod_converse(arm * arm_len + step, len, arm, step);
    lemma_fundamental_div_mod_converse(
        other_arm * arm_len + other_step,
        len,
        other_arm,
        other_step,
    );
    if step > 0 {
        lemma_fundamental_div_mod_converse(arm * arm_len + (step - 1), len, arm, step - 1);
    }
    if other_step > 0 {
        lemma_fundamental_div_mod_converse(
            other_arm * arm_len + (other_step - 1),
            len,
            other_arm,
            other_step - 1,
        );
    }
}

/// A tree-star joins its root, vertex 0, to the vertices from 1 to `d`, each
/// other vertex `u` to its two children `d + 2 * u - 1` and `d + 2 * u`, and
/// nothing else.
pub proof fn tree_stars_join_children(d: nat, ell: nat, u: int, v: int)
    requires
        d >= 1,
        0 <= u < v < tree_star_order(d as int, ell),
    ensures
        ({
            let rows = adjacency_of(
                tree_star_order(d as int, ell) as nat,
                parent_edge(tree_star_parent(d as int)),
            );
            &&& rows[u][v] == rows[v][u]
            &&& u == 0 ==> (rows[u][v] <==> v <= d)
            &&& u >= 1 ==> (rows[u][v] <==> v == d + 2 * u - 1 || v == d + 2 * u)
        }),
{
}

/// Each further level of a tree-star adds twice the vertices of the level above
/// it, the first level `d`.
pub proof fn tree_star_levels_double(d: nat, ell: nat)
    ensures
        tree_star_order(d as int, 0) == 1,
        tree_star_order(d as int, 1) == 1 + d,
        tree_star_order(d as int, ell + 2) - tree_star_order(d as int, ell + 1) == 2 * (
        tree_star_order(d as int, ell + 1) - tree_star_order(d as int, ell)),
{
    lemma_power_values();
    lemma_double_power(ell);
    lemma_double_power(ell + 1);
    let p = pow2(ell) as int;
    assert(d * (p - 1) == d * p - d) by (nonlinear_arith);
    assert(d * (2 * p - 1) == 2 * (d * p) - d) by (nonlinear_arith);
    assert(d * (4 * p - 1) == 4 * (d * p) - d) by (nonlinear_arith);
    assert(d * (pow2(0) - 1) == 0) by (nonlinear_arith)
        requires
            pow2(0) == 1,
    ;
    assert(d * (pow2(1) - 1) == d) by (nonlinear_arith)
        requires
            pow2(1) == 2,
    ;
}

/// A complete graph joins every two different vertices.
pub proof fn complete_graphs_join_all(n: nat, u: int, v: int)
    requires
        0 <= u < n,
        0 <= v < n,
    ensures
        adjacency_of(n, complete_edge())[u][v] <==> u != v,
{
}

/// The irregular graph joins the vertices of its ring of eleven to their
/// successors, has the chords (0, 2) and (5, 7), joins 11 to 14 as a kite, and
/// joins nothing else.
pub proof fn irregular_graph_joins_ring_and_kite(u: int, v: int)
    requires
        0 <= u < v < 15,
    ensures
        adjacency_of(15, irregular_edge())[u][v] == adjacency_of(15, irregular_edge())[v][u],
        adjacency_of(15, irregular_edge())[u][v] <==> (v <= 10 && (v == u + 1 || (u == 0 && v
            == 10))) || (u == 0 && v == 2) || (u == 5 && v == 7) || (u >= 11 && !(u == 11 && v
            == 14)),
{
}

/// A graph holds the number of neighbours of each of its vertices, beside an
/// adjacency that goes both ways and has no loops.
pub proof fn graphs_hold_their_degrees(graph: Graph, u: int, v: int)
    requires
        graph.wf(),
        0 <= u < graph@.len(),
        0 <= v < graph@.len(),
    ensures
        graph@.len() >= 1,
        graph@[u].len() == graph@.len(),
        graph@[u][v] == graph@[v][u],
        !graph@[u][u],
        graph.degree_seq().len() == graph@.len(),
        graph.degree_seq()[v] == set_int_range(0, graph@.len() as int).filter(
            |w: int| graph@[v][w],
        ).len(),
{
    totals_count_neighbours_and_pairs(graph@, v);
    assert(graph.degree_seq()[v] == degree_of(graph@, v));
}

} // verus!
