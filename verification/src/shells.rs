//! Graph distance and the vertex pairs at each small distance.

use crate::counting::{count_true, lemma_count_agrees};
use crate::error::Error;
use crate::graph::{edge_pairs, edge_total, lemma_edge_pairs, simple};
use crate::matrix::Matrix;
use std::collections::VecDeque;
use vstd::prelude::*;

verus! {

/// Number of graph-distance shells that a system on a graph needs non-empty.
/// Shell k holds the vertex pairs at distance k; the geometry criterion
/// compares the last two.
pub const GEOMETRY_SHELLS: usize = 3;

/// `v` can be reached from `u` over at most `k` edges.
pub open spec fn within(adjacency: Seq<Seq<bool>>, k: nat, u: int, v: int) -> bool
    decreases k,
{
    if k == 0 {
        u == v
    } else {
        within(adjacency, (k - 1) as nat, u, v) || exists|w: int|
            0 <= w < adjacency.len() && within(adjacency, (k - 1) as nat, u, w)
                && #[trigger] adjacency[w][v]
    }
}

/// The distance from `u` to `v` is exactly `k`.
pub open spec fn at_distance(adjacency: Seq<Seq<bool>>, k: nat, u: int, v: int) -> bool {
    within(adjacency, k, u, v) && (k == 0 || !within(adjacency, (k - 1) as nat, u, v))
}

/// The pair is an unordered pair of vertices at distance `k`, written with its
/// smaller vertex first.
pub open spec fn shell_member(adjacency: Seq<Seq<bool>>, k: nat, pair: (usize, usize)) -> bool {
    pair.0 < pair.1 < adjacency.len() && at_distance(
        adjacency,
        k,
        pair.0 as int,
        pair.1 as int,
    )
}

/// `left` comes before `right` in the order by first and then second vertex.
pub open spec fn pair_before(left: (usize, usize), right: (usize, usize)) -> bool {
    left.0 < right.0 || (left.0 == right.0 && left.1 < right.1)
}

/// Each pair comes before all that follow it.
pub open spec fn pairs_increase(pairs: Seq<(usize, usize)>) -> bool {
    forall|i: int, j: int|
        0 <= i < j < pairs.len() ==> pair_before(#[trigger] pairs[i], #[trigger] pairs[j])
}

/// `pairs` lists, in increasing order, exactly the vertex pairs at distance
/// `k`.
pub open spec fn is_shell(
    adjacency: Seq<Seq<bool>>,
    k: nat,
    pairs: Seq<(usize, usize)>,
) -> bool {
    &&& pairs_increase(pairs)
    &&& forall|pair: (usize, usize)|
        #[trigger] pairs.contains(pair) <==> shell_member(adjacency, k, pair)
}

/// There is a vertex pair at distance `k`.
pub open spec fn populated(adjacency: Seq<Seq<bool>>, k: nat) -> bool {
    exists|pair: (usize, usize)| #[trigger] shell_member(adjacency, k, pair)
}

/// How many of the distances 1, 2, up to `limit` are populated before the
/// first that is not.
pub open spec fn leading_populated(adjacency: Seq<Seq<bool>>, limit: nat) -> nat
    decreases limit,
{
    if limit == 0 {
        0
    } else {
        let before = leading_populated(adjacency, (limit - 1) as nat);
        if before == limit - 1 && populated(adjacency, limit) {
            limit
        } else {
            before
        }
    }
}

/// The vertices that `distance` has not reached.
spec fn untouched(distance: Seq<usize>) -> Seq<bool> {
    Seq::new(distance.len(), |i: int| distance[i] == usize::MAX)
}

/// What a breadth-first search from `source` knows: each reached vertex is at
/// the distance that is noted for it, which is at most the shell count.
spec fn notes_distances(adjacency: Seq<Seq<bool>>, source: int, distance: Seq<usize>) -> bool {
    &&& distance.len() == adjacency.len()
    &&& distance[source] == 0
    &&& forall|v: int|
        0 <= v < distance.len() && #[trigger] distance[v] != usize::MAX ==> distance[v]
            <= GEOMETRY_SHELLS && at_distance(adjacency, distance[v] as nat, source, v)
}

/// Every neighbour of `w` has been reached.
spec fn expanded(adjacency: Seq<Seq<bool>>, distance: Seq<usize>, w: int) -> bool {
    forall|v: int|
        0 <= v < distance.len() && #[trigger] adjacency[w][v] ==> distance[v] != usize::MAX
}

/// Every vertex within `k` edges of `source` has been reached.
spec fn covers(adjacency: Seq<Seq<bool>>, source: int, distance: Seq<usize>, k: nat) -> bool {
    forall|v: int|
        0 <= v < distance.len() && #[trigger] within(adjacency, k, source, v) ==> distance[v]
            != usize::MAX
}

proof fn lemma_within_grows(adjacency: Seq<Seq<bool>>, low: nat, high: nat, u: int, v: int)
    requires
        low <= high,
        within(adjacency, low, u, v),
    ensures
        within(adjacency, high, u, v),
    decreases high - low,
{
    if low < high {
        lemma_within_grows(adjacency, low, (high - 1) as nat, u, v);
    }
}

proof fn lemma_within_step(adjacency: Seq<Seq<bool>>, k: nat, u: int, w: int, v: int)
    requires
        0 <= w < adjacency.len(),
        within(adjacency, k, u, w),
        adjacency[w][v],
    ensures
        within(adjacency, k + 1, u, v),
{
}

/// Where every reached vertex nearer than `bound` is expanded, everything
/// within `bound` is reached.
proof fn lemma_coverage(
    adjacency: Seq<Seq<bool>>,
    source: int,
    distance: Seq<usize>,
    bound: nat,
    k: nat,
)
    requires
        0 <= source < adjacency.len(),
        notes_distances(adjacency, source, distance),
        forall|w: int|
            0 <= w < distance.len() && (#[trigger] distance[w]) < bound ==> expanded(
                adjacency,
                distance,
                w,
            ),
        k <= bound,
        bound < usize::MAX,
    ensures
        covers(adjacency, source, distance, k),
    decreases k,
{
    if k > 0 {
        let below = (k - 1) as nat;
        lemma_coverage(adjacency, source, distance, bound, below);
        assert forall|v: int|
            0 <= v < distance.len() && #[trigger] within(
                adjacency,
                k,
                source,
                v,
            ) implies distance[v] != usize::MAX by {
            if !within(adjacency, below, source, v) {
                let w = choose|w: int|
                    0 <= w < adjacency.len() && within(adjacency, below, source, w)
                        && #[trigger] adjacency[w][v];
                assert(distance[w] != usize::MAX);
                if distance[w] > below {
                    lemma_within_grows(
                        adjacency,
                        below,
                        (distance[w] - 1) as nat,
                        source,
                        w,
                    );
                }
                assert(expanded(adjacency, distance, w));
            }
        }
    }
}

proof fn lemma_reaching_lowers(distance: Seq<usize>, v: int, reached: usize)
    requires
        0 <= v < distance.len(),
        distance[v] == usize::MAX,
        reached != usize::MAX,
    ensures
        count_true(untouched(distance.update(v, reached)), distance.len() as int) < count_true(
            untouched(distance),
            distance.len() as int,
        ),
{
    lemma_one_cleared(
        untouched(distance),
        untouched(distance.update(v, reached)),
        v,
        distance.len() as int,
    );
}

proof fn lemma_one_cleared(before: Seq<bool>, after: Seq<bool>, v: int, n: int)
    requires
        0 <= v < n,
        before[v],
        !after[v],
        forall|i: int| 0 <= i < n && i != v ==> before[i] == after[i],
    ensures
        count_true(before, n) == count_true(after, n) + 1,
    decreases n,
{
    if v == n - 1 {
        lemma_count_agrees(before, after, n - 1);
    } else {
        lemma_one_cleared(before, after, v, n - 1);
    }
}

/// The distance of every vertex from `source` as far as the shells reach, and
/// `usize::MAX` for the vertices beyond.
fn distances_from(adjacency: &Matrix<bool>, order: usize, source: usize) -> (distance: Vec<usize>)
    requires
        adjacency.wf(),
        adjacency.has_shape(order as nat, order as nat),
        source < order,
    ensures
        distance@.len() == order,
        forall|v: int|
            0 <= v < order && #[trigger] distance@[v] != usize::MAX ==> distance@[v]
                <= GEOMETRY_SHELLS && at_distance(
                adjacency@,
                distance@[v] as nat,
                source as int,
                v,
            ),
        forall|v: int|
            0 <= v < order && #[trigger] distance@[v] == usize::MAX ==> !within(
                adjacency@,
                GEOMETRY_SHELLS as nat,
                source as int,
                v,
            ),
{
    let mut distance: Vec<usize> = Vec::new();
    let mut filled: usize = 0;
    while filled < order
        invariant
            filled <= order,
            distance@.len() == filled,
            forall|v: int| 0 <= v < filled ==> #[trigger] distance@[v] == usize::MAX,
        decreases order - filled,
    {
        distance.push(usize::MAX);
        filled += 1;
    }
    distance.set(source, 0);
    let mut queue: VecDeque<usize> = VecDeque::new();
    queue.push_back(source);
    assert(queue@[0] == source);
    let ghost rows = adjacency@;
    while queue.len() > 0
        invariant
            rows == adjacency@,
            adjacency.wf(),
            adjacency.has_shape(order as nat, order as nat),
            source < order,
            notes_distances(rows, source as int, distance@),
            forall|i: int|
                0 <= i < queue@.len() ==> (#[trigger] queue@[i]) < order && distance@[queue@[i] as int]
                    != usize::MAX,
            forall|i: int, j: int|
                0 <= i < j < queue@.len() ==> distance@[#[trigger] queue@[i] as int]
                    <= distance@[#[trigger] queue@[j] as int] <= distance@[queue@[i] as int] + 1,
            forall|w: int|
                0 <= w < order && (#[trigger] distance@[w]) < GEOMETRY_SHELLS && !queue@.contains(
                    w as usize,
                ) ==> expanded(rows, distance@, w),
        decreases count_true(untouched(distance@), order as int), queue@.len(),
    {
        let ghost waiting = queue@;
        let vertex: usize = queue.pop_front().unwrap();
        assert(vertex == waiting[0]);
        assert(queue@ =~= waiting.drop_first());
        let near: usize = distance[vertex];
        let next: usize = near + 1;
        let ghost before = distance@;
        proof {
            assert forall|w: int|
                0 <= w < order && (#[trigger] before[w]) < near implies expanded(rows, before, w) by {
                if waiting.contains(w as usize) {
                    let i = choose|i: int| 0 <= i < waiting.len() && waiting[i] == w as usize;
                    assert(before[waiting[i] as int] >= near);
                }
            }
            lemma_coverage(rows, source as int, before, near as nat, near as nat);
            assert forall|w: int|
                0 <= w < order && w != vertex && (#[trigger] before[w]) < GEOMETRY_SHELLS
                    && !queue@.contains(w as usize) implies expanded(rows, before, w) by {
                if waiting.contains(w as usize) {
                    let i = choose|i: int| 0 <= i < waiting.len() && waiting[i] == w as usize;
                    assert(i != 0);
                    assert(queue@[i - 1] == w as usize);
                }
            }
        }
        if next <= GEOMETRY_SHELLS {
            let mut other: usize = 0;
            while other < order
                invariant
                    rows == adjacency@,
                    adjacency.wf(),
                    adjacency.has_shape(order as nat, order as nat),
                    source < order,
                    vertex < order,
                    other <= order,
                    next == near + 1,
                    next <= GEOMETRY_SHELLS,
                    before.len() == order,
                    before[vertex as int] == near,
                    covers(rows, source as int, before, near as nat),
                    notes_distances(rows, source as int, distance@),
                    distance@[vertex as int] == near,
                    forall|v: int|
                        0 <= v < order && #[trigger] before[v] != usize::MAX ==> distance@[v]
                            == before[v],
                    forall|i: int|
                        0 <= i < queue@.len() ==> (#[trigger] queue@[i]) < order
                            && distance@[queue@[i] as int] != usize::MAX && near
                            <= distance@[queue@[i] as int] <= next,
                    forall|i: int, j: int|
                        0 <= i < j < queue@.len() ==> distance@[#[trigger] queue@[i] as int]
                            <= distance@[#[trigger] queue@[j] as int],
                    forall|w: int|
                        0 <= w < order && w != vertex && (#[trigger] distance@[w])
                            < GEOMETRY_SHELLS && !queue@.contains(w as usize) ==> expanded(
                            rows,
                            distance@,
                            w,
                        ),
                    forall|v: int|
                        0 <= v < other && #[trigger] rows[vertex as int][v] ==> distance@[v]
                            != usize::MAX,
                    count_true(untouched(distance@), order as int) < count_true(
                        untouched(before),
                        order as int,
                    ) || (distance@ == before && queue@ == waiting.drop_first()),
                decreases order - other,
            {
                assert(rows[vertex as int].len() == order);
                if *adjacency.at(vertex, other) && distance[other] == usize::MAX {
                    let ghost earlier = distance@;
                    let ghost line = queue@;
                    proof {
                        assert(!within(rows, near as nat, source as int, other as int)) by {
                            assert(before[other as int] == usize::MAX);
                        }
                        lemma_within_step(
                            rows,
                            near as nat,
                            source as int,
                            vertex as int,
                            other as int,
                        );
                        lemma_reaching_lowers(earlier, other as int, next);
                    }
                    distance.set(other, next);
                    queue.push_back(other);
                    assert(distance@ == earlier.update(other as int, next));
                    assert forall|w: int|
                        0 <= w < order && w != vertex && (#[trigger] distance@[w])
                            < GEOMETRY_SHELLS && !queue@.contains(w as usize) implies expanded(
                        rows,
                        distance@,
                        w,
                    ) by {
                        if w == other {
                            assert(queue@[queue@.len() - 1] == w as usize);
                        }
                        if line.contains(w as usize) {
                            let i = choose|i: int| 0 <= i < line.len() && line[i] == w as usize;
                            assert(queue@[i] == w as usize);
                        }
                        assert(earlier[w] == distance@[w]);
                        assert(expanded(rows, earlier, w));
                    }
                }
                other += 1;
            }
            assert(expanded(rows, distance@, vertex as int));
        }
    }
    proof {
        assert forall|w: int|
            0 <= w < order && (#[trigger] distance@[w]) < GEOMETRY_SHELLS implies expanded(
            rows,
            distance@,
            w,
        ) by {
            assert(!queue@.contains(w as usize));
        }
        lemma_coverage(
            rows,
            source as int,
            distance@,
            GEOMETRY_SHELLS as nat,
            GEOMETRY_SHELLS as nat,
        );
    }
    distance
}

/// The pairs of a shell that a sweep has seen once it stands before
/// (`source`, `other`).
spec fn seen(
    adjacency: Seq<Seq<bool>>,
    k: nat,
    source: int,
    other: int,
    pair: (usize, usize),
) -> bool {
    shell_member(adjacency, k, pair) && (pair.0 < source || (pair.0 == source && pair.1 < other))
}

/// `pairs` lists what the sweep has seen of shell `k`.
spec fn lists_seen(
    adjacency: Seq<Seq<bool>>,
    k: nat,
    source: int,
    other: int,
    pairs: Seq<(usize, usize)>,
) -> bool {
    &&& pairs_increase(pairs)
    &&& forall|pair: (usize, usize)|
        #[trigger] pairs.contains(pair) <==> seen(adjacency, k, source, other, pair)
}

proof fn lemma_sweep_adds(
    adjacency: Seq<Seq<bool>>,
    k: nat,
    source: usize,
    other: usize,
    pairs: Seq<(usize, usize)>,
)
    requires
        source < other < adjacency.len(),
        adjacency.len() <= usize::MAX,
        lists_seen(adjacency, k, source as int, other as int, pairs),
        at_distance(adjacency, k, source as int, other as int),
    ensures
        lists_seen(adjacency, k, source as int, other + 1, pairs.push((source, other))),
{
    let grown = pairs.push((source, other));
    assert forall|i: int, j: int| 0 <= i < j < grown.len() implies pair_before(
        #[trigger] grown[i],
        #[trigger] grown[j],
    ) by {
        assert(pairs.contains(pairs[i]));
    }
    assert forall|pair: (usize, usize)| #[trigger] grown.contains(pair) <==> seen(
        adjacency,
        k,
        source as int,
        other + 1,
        pair,
    ) by {
        if grown.contains(pair) && pair != (source, other) {
            let i = choose|i: int| 0 <= i < grown.len() && grown[i] == pair;
            assert(pairs[i] == pair);
            assert(pairs.contains(pair));
        }
        if seen(adjacency, k, source as int, other + 1, pair) {
            if pair == (source, other) {
                assert(grown[pairs.len() as int] == pair);
            } else {
                assert(pairs.contains(pair));
                let i = choose|i: int| 0 <= i < pairs.len() && pairs[i] == pair;
                assert(grown[i] == pair);
            }
        }
    }
}

proof fn lemma_sweep_skips(
    adjacency: Seq<Seq<bool>>,
    k: nat,
    source: usize,
    other: usize,
    pairs: Seq<(usize, usize)>,
)
    requires
        lists_seen(adjacency, k, source as int, other as int, pairs),
        !at_distance(adjacency, k, source as int, other as int),
    ensures
        lists_seen(adjacency, k, source as int, other + 1, pairs),
{
    assert forall|pair: (usize, usize)| #[trigger] pairs.contains(pair) <==> seen(
        adjacency,
        k,
        source as int,
        other + 1,
        pair,
    ) by {
        assert(pairs.contains(pair) <==> seen(adjacency, k, source as int, other as int, pair));
    }
}

proof fn lemma_one_distance(adjacency: Seq<Seq<bool>>, j: nat, k: nat, u: int, v: int)
    requires
        at_distance(adjacency, j, u, v),
        at_distance(adjacency, k, u, v),
    ensures
        j == k,
{
    if j < k {
        lemma_within_grows(adjacency, j, (k - 1) as nat, u, v);
    } else if k < j {
        lemma_within_grows(adjacency, k, (j - 1) as nat, u, v);
    }
}

/// The unordered vertex pairs at each distance from 1 to [`GEOMETRY_SHELLS`],
/// by breadth-first search from every vertex, or the number of leading shells
/// that are populated where one is empty.
pub fn distance_shells(adjacency: &Matrix<bool>, order: usize) -> (result: Result<
    Vec<Vec<(usize, usize)>>,
    Error,
>)
    requires
        adjacency.wf(),
        adjacency.has_shape(order as nat, order as nat),
    ensures
        leading_populated(adjacency@, GEOMETRY_SHELLS as nat) == GEOMETRY_SHELLS
            ==> result is Ok,
        leading_populated(adjacency@, GEOMETRY_SHELLS as nat) != GEOMETRY_SHELLS
            ==> result == Err::<Vec<Vec<(usize, usize)>>, Error>(
            Error::InsufficientDistanceShells {
                available: leading_populated(adjacency@, GEOMETRY_SHELLS as nat) as usize,
            },
        ),
        result matches Ok(shells) ==> shells@.len() == GEOMETRY_SHELLS && forall|k: int|
            0 <= k < GEOMETRY_SHELLS ==> (#[trigger] shells@[k])@.len() > 0 && is_shell(
                adjacency@,
                (k + 1) as nat,
                shells@[k]@,
            ),
{
    let ghost rows = adjacency@;
    let mut shells: Vec<Vec<(usize, usize)>> = Vec::new();
    let mut made: usize = 0;
    while made < GEOMETRY_SHELLS
        invariant
            made <= GEOMETRY_SHELLS,
            shells@.len() == made,
            forall|k: int| 0 <= k < made ==> (#[trigger] shells@[k])@.len() == 0,
        decreases GEOMETRY_SHELLS - made,
    {
        shells.push(Vec::new());
        made += 1;
    }
    let mut source: usize = 0;
    while source < order
        invariant
            rows == adjacency@,
            adjacency.wf(),
            adjacency.has_shape(order as nat, order as nat),
            source <= order,
            shells@.len() == GEOMETRY_SHELLS,
            forall|k: int|
                0 <= k < GEOMETRY_SHELLS ==> lists_seen(
                    rows,
                    (k + 1) as nat,
                    source as int,
                    0,
                    (#[trigger] shells@[k])@,
                ),
        decreases order - source,
    {
        let distance: Vec<usize> = distances_from(adjacency, order, source);
        let mut other: usize = source + 1;
        assert forall|k: int| 0 <= k < GEOMETRY_SHELLS implies lists_seen(
            rows,
            (k + 1) as nat,
            source as int,
            other as int,
            (#[trigger] shells@[k])@,
        ) by {
            let pairs = shells@[k]@;
            assert forall|pair: (usize, usize)| #[trigger] pairs.contains(pair) <==> seen(
                rows,
                (k + 1) as nat,
                source as int,
                other as int,
                pair,
            ) by {
                assert(pairs.contains(pair) <==> seen(
                    rows,
                    (k + 1) as nat,
                    source as int,
                    0,
                    pair,
                ));
            }
        }
        while other < order
            invariant
                rows == adjacency@,
                rows.len() == order,
                source < other <= order,
                distance@.len() == order,
                forall|v: int|
                    0 <= v < order && #[trigger] distance@[v] != usize::MAX ==> distance@[v]
                        <= GEOMETRY_SHELLS && at_distance(
                        rows,
                        distance@[v] as nat,
                        source as int,
                        v,
                    ),
                forall|v: int|
                    0 <= v < order && #[trigger] distance@[v] == usize::MAX ==> !within(
                        rows,
                        GEOMETRY_SHELLS as nat,
                        source as int,
                        v,
                    ),
                shells@.len() == GEOMETRY_SHELLS,
                forall|k: int|
                    0 <= k < GEOMETRY_SHELLS ==> lists_seen(
                        rows,
                        (k + 1) as nat,
                        source as int,
                        other as int,
                        (#[trigger] shells@[k])@,
                    ),
            decreases order - other,
        {
            let reached: usize = distance[other];
            let ghost before = shells@;
            if 1 <= reached && reached <= GEOMETRY_SHELLS {
                shells[reached - 1].push((source, other));
                assert forall|k: int| 0 <= k < GEOMETRY_SHELLS implies lists_seen(
                    rows,
                    (k + 1) as nat,
                    source as int,
                    other + 1,
                    (#[trigger] shells@[k])@,
                ) by {
                    assert(lists_seen(
                        rows,
                        (k + 1) as nat,
                        source as int,
                        other as int,
                        before[k]@,
                    ));
                    if k == reached - 1 {
                        lemma_sweep_adds(rows, (k + 1) as nat, source, other, before[k]@);
                    } else {
                        if at_distance(rows, (k + 1) as nat, source as int, other as int) {
                            lemma_one_distance(
                                rows,
                                (k + 1) as nat,
                                reached as nat,
                                source as int,
                                other as int,
                            );
                        }
                        lemma_sweep_skips(rows, (k + 1) as nat, source, other, before[k]@);
                    }
                }
            } else {
                assert forall|k: int| 0 <= k < GEOMETRY_SHELLS implies lists_seen(
                    rows,
                    (k + 1) as nat,
                    source as int,
                    other + 1,
                    (#[trigger] shells@[k])@,
                ) by {
                    if at_distance(rows, (k + 1) as nat, source as int, other as int) {
                        if reached == 0 {
                            lemma_one_distance(
                                rows,
                                (k + 1) as nat,
                                0,
                                source as int,
                                other as int,
                            );
                        } else {
                            lemma_within_grows(
                                rows,
                                (k + 1) as nat,
                                GEOMETRY_SHELLS as nat,
                                source as int,
                                other as int,
                            );
                        }
                    }
                    lemma_sweep_skips(rows, (k + 1) as nat, source, other, shells@[k]@);
                }
            }
            other += 1;
        }
        assert forall|k: int| 0 <= k < GEOMETRY_SHELLS implies lists_seen(
            rows,
            (k + 1) as nat,
            source + 1,
            0,
            (#[trigger] shells@[k])@,
        ) by {
            let pairs = shells@[k]@;
            assert forall|pair: (usize, usize)| #[trigger] pairs.contains(pair) <==> seen(
                rows,
                (k + 1) as nat,
                source + 1,
                0,
                pair,
            ) by {
                assert(pairs.contains(pair) <==> seen(
                    rows,
                    (k + 1) as nat,
                    source as int,
                    order as int,
                    pair,
                ));
            }
        }
        source += 1;
    }
    assert forall|k: int| 0 <= k < GEOMETRY_SHELLS implies is_shell(
        rows,
        (k + 1) as nat,
        (#[trigger] shells@[k])@,
    ) by {
        let pairs = shells@[k]@;
        assert forall|pair: (usize, usize)| #[trigger] pairs.contains(pair) <==> shell_member(
            rows,
            (k + 1) as nat,
            pair,
        ) by {
            assert(pairs.contains(pair) <==> seen(
                rows,
                (k + 1) as nat,
                order as int,
                0,
                pair,
            ));
        }
    }

    let mut available: usize = 0;
    while available < GEOMETRY_SHELLS && shells[available].len() > 0
        invariant
            available <= GEOMETRY_SHELLS,
            shells@.len() == GEOMETRY_SHELLS,
            forall|k: int|
                0 <= k < GEOMETRY_SHELLS ==> is_shell(
                    rows,
                    (k + 1) as nat,
                    (#[trigger] shells@[k])@,
                ),
            forall|k: int| 0 <= k < available ==> (#[trigger] shells@[k])@.len() > 0,
            leading_populated(rows, available as nat) == available,
        decreases GEOMETRY_SHELLS - available,
    {
        proof {
            let pairs = shells@[available as int]@;
            assert(pairs.contains(pairs[0]));
            assert(shell_member(rows, (available + 1) as nat, pairs[0]));
        }
        available += 1;
    }
    if available < GEOMETRY_SHELLS {
        proof {
            let pairs = shells@[available as int]@;
            assert forall|pair: (usize, usize)| !#[trigger] shell_member(
                rows,
                (available + 1) as nat,
                pair,
            ) by {
                assert(!pairs.contains(pair));
            }
            lemma_leading_stops(rows, available as nat, GEOMETRY_SHELLS as nat);
        }
        return Err(Error::InsufficientDistanceShells { available });
    }
    Ok(shells)
}

proof fn lemma_leading_stops(adjacency: Seq<Seq<bool>>, stop: nat, limit: nat)
    requires
        stop < limit,
        leading_populated(adjacency, stop) == stop,
        !populated(adjacency, stop + 1),
    ensures
        leading_populated(adjacency, limit) == stop,
    decreases limit,
{
    if stop + 1 < limit {
        lemma_leading_stops(adjacency, stop, (limit - 1) as nat);
    }
}

proof fn lemma_within_prepends(adjacency: Seq<Seq<bool>>, k: nat, u: int, w: int, v: int)
    requires
        0 <= u < adjacency.len(),
        0 <= w < adjacency.len(),
        adjacency[u][w],
        within(adjacency, k, w, v),
    ensures
        within(adjacency, k + 1, u, v),
    decreases k,
{
    if k == 0 {
        assert(within(adjacency, 0, u, u));
    } else if within(adjacency, (k - 1) as nat, w, v) {
        lemma_within_prepends(adjacency, (k - 1) as nat, u, w, v);
    } else {
        let x = choose|x: int|
            0 <= x < adjacency.len() && within(adjacency, (k - 1) as nat, w, x)
                && #[trigger] adjacency[x][v];
        lemma_within_prepends(adjacency, (k - 1) as nat, u, w, x);
        lemma_within_step(adjacency, k, u, x, v);
    }
}

proof fn lemma_within_reverses(adjacency: Seq<Seq<bool>>, k: nat, u: int, v: int)
    requires
        simple(adjacency),
        0 <= u < adjacency.len(),
        0 <= v < adjacency.len(),
        within(adjacency, k, u, v),
    ensures
        within(adjacency, k, v, u),
    decreases k,
{
    if k > 0 {
        if within(adjacency, (k - 1) as nat, u, v) {
            lemma_within_reverses(adjacency, (k - 1) as nat, u, v);
        } else {
            let w = choose|w: int|
                0 <= w < adjacency.len() && within(adjacency, (k - 1) as nat, u, w)
                    && #[trigger] adjacency[w][v];
            lemma_within_reverses(adjacency, (k - 1) as nat, u, w);
            assert(adjacency[v][w]);
            lemma_within_prepends(adjacency, (k - 1) as nat, v, w, u);
        }
    }
}

/// Distance does not depend on which vertex of the pair is the start, so the
/// shells' pairs are unordered.
pub proof fn distance_is_symmetric(adjacency: Seq<Seq<bool>>, k: nat, u: int, v: int)
    requires
        simple(adjacency),
        0 <= u < adjacency.len(),
        0 <= v < adjacency.len(),
    ensures
        within(adjacency, k, u, v) == within(adjacency, k, v, u),
        at_distance(adjacency, k, u, v) == at_distance(adjacency, k, v, u),
{
    let below = if k == 0 {
        0nat
    } else {
        (k - 1) as nat
    };
    if within(adjacency, k, u, v) {
        lemma_within_reverses(adjacency, k, u, v);
    }
    if within(adjacency, k, v, u) {
        lemma_within_reverses(adjacency, k, v, u);
    }
    if within(adjacency, below, u, v) {
        lemma_within_reverses(adjacency, below, u, v);
    }
    if within(adjacency, below, v, u) {
        lemma_within_reverses(adjacency, below, v, u);
    }
}

/// A pair has at most one distance, so no pair lies in two shells.
pub proof fn shells_are_disjoint(
    adjacency: Seq<Seq<bool>>,
    j: nat,
    k: nat,
    pair: (usize, usize),
)
    requires
        shell_member(adjacency, j, pair),
        shell_member(adjacency, k, pair),
    ensures
        j == k,
{
    lemma_one_distance(adjacency, j, k, pair.0 as int, pair.1 as int);
}

/// Beyond the first shell no pair is adjacent, so the adjacency matrix is zero
/// on every deeper shell.
pub proof fn deeper_pairs_are_not_adjacent(
    adjacency: Seq<Seq<bool>>,
    k: nat,
    u: int,
    v: int,
)
    requires
        0 <= u < adjacency.len(),
        k >= 2,
        at_distance(adjacency, k, u, v),
    ensures
        !adjacency[u][v],
{
    if adjacency[u][v] {
        lemma_within_step(adjacency, 0, u, u, v);
        lemma_within_grows(adjacency, 1, (k - 1) as nat, u, v);
    }
}

/// Two vertices at distance 3 or more have no common neighbour, so the rows of
/// the adjacency matrix are orthogonal on every such pair.
pub proof fn far_pairs_share_no_neighbour(
    adjacency: Seq<Seq<bool>>,
    k: nat,
    u: int,
    v: int,
    w: int,
)
    requires
        simple(adjacency),
        0 <= u < adjacency.len(),
        0 <= v < adjacency.len(),
        0 <= w < adjacency.len(),
        k >= 3,
        at_distance(adjacency, k, u, v),
    ensures
        !(adjacency[u][w] && adjacency[v][w]),
{
    if adjacency[u][w] && adjacency[v][w] {
        assert(adjacency[w][v]);
        lemma_within_step(adjacency, 0, u, u, w);
        lemma_within_step(adjacency, 1, u, w, v);
        lemma_within_grows(adjacency, 2, (k - 1) as nat, u, v);
    }
}

proof fn lemma_same_pairs(left: Seq<(usize, usize)>, right: Seq<(usize, usize)>)
    requires
        pairs_increase(left),
        pairs_increase(right),
        forall|pair: (usize, usize)| left.contains(pair) <==> #[trigger] right.contains(pair),
    ensures
        left == right,
    decreases left.len(),
{
    if left.len() == 0 {
        if right.len() > 0 {
            assert(right.contains(right[0]));
        }
        assert(left =~= right);
    } else {
        assert(left.contains(left.last()));
        assert(right.contains(left.last()));
        let i = choose|i: int| 0 <= i < right.len() && right[i] == left.last();
        assert(right.contains(right.last()));
        assert(left.contains(right.last()));
        let j = choose|j: int| 0 <= j < left.len() && left[j] == right.last();
        assert(left.last() == right.last()) by {
            if i < right.len() - 1 && j < left.len() - 1 {
                assert(pair_before(right[i], right[right.len() - 1]));
                assert(pair_before(left[j], left[left.len() - 1]));
            }
        }
        let (a, b) = (left.drop_last(), right.drop_last());
        assert forall|pair: (usize, usize)| a.contains(pair) <==> #[trigger] b.contains(pair) by {
            if a.contains(pair) {
                let n = choose|n: int| 0 <= n < a.len() && a[n] == pair;
                assert(left[n] == pair);
                assert(pair_before(left[n], left[left.len() - 1]));
                assert(left.contains(pair));
                assert(right.contains(pair));
                let m = choose|m: int| 0 <= m < right.len() && right[m] == pair;
                assert(b[m] == pair);
            }
            if b.contains(pair) {
                let n = choose|n: int| 0 <= n < b.len() && b[n] == pair;
                assert(right[n] == pair);
                assert(pair_before(right[n], right[right.len() - 1]));
                assert(right.contains(pair));
                assert(left.contains(pair));
                let m = choose|m: int| 0 <= m < left.len() && left[m] == pair;
                assert(a[m] == pair);
            }
        }
        lemma_same_pairs(a, b);
        assert(left =~= a.push(left.last()));
        assert(right =~= b.push(right.last()));
    }
}

/// The graph determines each shell: there is one list of its pairs.
pub proof fn shell_is_determined(
    adjacency: Seq<Seq<bool>>,
    k: nat,
    left: Seq<(usize, usize)>,
    right: Seq<(usize, usize)>,
)
    requires
        is_shell(adjacency, k, left),
        is_shell(adjacency, k, right),
    ensures
        left == right,
{
    assert forall|pair: (usize, usize)| left.contains(pair) <==> #[trigger] right.contains(
        pair,
    ) by {
        assert(left.contains(pair) <==> shell_member(adjacency, k, pair));
    }
    lemma_same_pairs(left, right);
}

/// The first shell is the edge set: its pairs are the edges, and there are as
/// many as the graph has edges.
pub proof fn first_shell_is_the_edges(adjacency: Seq<Seq<bool>>, pairs: Seq<(usize, usize)>)
    requires
        simple(adjacency),
        adjacency.len() <= usize::MAX,
        is_shell(adjacency, 1, pairs),
    ensures
        forall|u: usize, v: usize|
            u < v < adjacency.len() ==> (#[trigger] pairs.contains((u, v))
                <==> adjacency[u as int][v as int]),
        pairs.len() == edge_total(adjacency),
{
    assert forall|u: usize, v: usize| u < v < adjacency.len() implies (#[trigger] pairs.contains(
        (u, v),
    ) <==> adjacency[u as int][v as int]) by {
        assert(pairs.contains((u, v)) <==> shell_member(adjacency, 1, (u, v)));
        reveal_with_fuel(within, 2);
        if adjacency[u as int][v as int] {
            lemma_within_step(adjacency, 0, u as int, u as int, v as int);
        }
    }
    let edges = edge_pairs(adjacency, adjacency.len() as int);
    assert(pairs.to_set() =~= edges) by {
        assert forall|pair: (usize, usize)| pairs.to_set().contains(pair) <==> edges.contains(
            pair,
        ) by {
            assert(pairs.contains(pair) <==> shell_member(adjacency, 1, pair));
            if pair.0 < pair.1 < adjacency.len() {
                assert(pairs.contains((pair.0, pair.1))
                    <==> adjacency[pair.0 as int][pair.1 as int]);
            }
        }
    }
    lemma_edge_pairs(adjacency, adjacency.len() as int);
    assert(pairs.no_duplicates());
    pairs.unique_seq_to_set();
}

/// A vertex is within `k` edges of another exactly where a walk over edges leads
/// from one to the other that has at most `k` of them.
pub proof fn reach_is_by_walks(adjacency: Seq<Seq<bool>>, k: nat, u: int, v: int)
    requires
        0 <= u < adjacency.len(),
        0 <= v < adjacency.len(),
    ensures
        within(adjacency, k, u, v) <==> exists|walk: Seq<int>|
            {
                &&& 1 <= #[trigger] walk.len() <= k + 1
                &&& walk[0] == u
                &&& walk[walk.len() - 1] == v
                &&& forall|i: int| 0 <= i < walk.len() ==> 0 <= #[trigger] walk[i] < adjacency.len()
                &&& forall|i: int, j: int|
                    0 <= i && j == i + 1 && j < walk.len()
                        ==> #[trigger] adjacency[walk[i]][walk[j]]
            },
{
    if within(adjacency, k, u, v) {
        let walk = lemma_reach_has_walk(adjacency, k, u, v);
        assert(1 <= walk.len() <= k + 1);
    }
    if exists|walk: Seq<int>|
        {
            &&& 1 <= #[trigger] walk.len() <= k + 1
            &&& walk[0] == u
            &&& walk[walk.len() - 1] == v
            &&& forall|i: int| 0 <= i < walk.len() ==> 0 <= #[trigger] walk[i] < adjacency.len()
            &&& forall|i: int, j: int|
                0 <= i && j == i + 1 && j < walk.len()
                    ==> #[trigger] adjacency[walk[i]][walk[j]]
        } {
        let walk = choose|walk: Seq<int>|
            {
                &&& 1 <= #[trigger] walk.len() <= k + 1
                &&& walk[0] == u
                &&& walk[walk.len() - 1] == v
                &&& forall|i: int| 0 <= i < walk.len() ==> 0 <= #[trigger] walk[i] < adjacency.len()
                &&& forall|i: int, j: int|
                    0 <= i && j == i + 1 && j < walk.len()
                        ==> #[trigger] adjacency[walk[i]][walk[j]]
            };
        lemma_walk_reaches(adjacency, walk);
        lemma_within_grows(adjacency, (walk.len() - 1) as nat, k, u, v);
    }
}

proof fn lemma_reach_has_walk(adjacency: Seq<Seq<bool>>, k: nat, u: int, v: int) -> (walk: Seq<int>)
    requires
        0 <= u < adjacency.len(),
        0 <= v < adjacency.len(),
        within(adjacency, k, u, v),
    ensures
        1 <= walk.len() <= k + 1,
        walk[0] == u,
        walk[walk.len() - 1] == v,
        forall|i: int| 0 <= i < walk.len() ==> 0 <= #[trigger] walk[i] < adjacency.len(),
        forall|i: int, j: int|
            0 <= i && j == i + 1 && j < walk.len() ==> #[trigger] adjacency[walk[i]][walk[j]],
    decreases k,
{
    if k == 0 {
        seq![u]
    } else if within(adjacency, (k - 1) as nat, u, v) {
        lemma_reach_has_walk(adjacency, (k - 1) as nat, u, v)
    } else {
        let w = choose|w: int|
            0 <= w < adjacency.len() && within(adjacency, (k - 1) as nat, u, w)
                && #[trigger] adjacency[w][v];
        let before = lemma_reach_has_walk(adjacency, (k - 1) as nat, u, w);
        let walk = before.push(v);
        assert forall|i: int, j: int| 0 <= i && j == i + 1 && j < walk.len() implies #[trigger] adjacency[walk[i]][walk[j]] by {
            if j < before.len() {
                assert(adjacency[before[i]][before[j]]);
            }
        }
        walk
    }
}

proof fn lemma_walk_reaches(adjacency: Seq<Seq<bool>>, walk: Seq<int>)
    requires
        walk.len() >= 1,
        forall|i: int| 0 <= i < walk.len() ==> 0 <= #[trigger] walk[i] < adjacency.len(),
        forall|i: int, j: int|
            0 <= i && j == i + 1 && j < walk.len() ==> #[trigger] adjacency[walk[i]][walk[j]],
    ensures
        within(adjacency, (walk.len() - 1) as nat, walk[0], walk[walk.len() - 1]),
    decreases walk.len(),
{
    if walk.len() > 1 {
        let before = walk.drop_last();
        assert forall|i: int, j: int| 0 <= i && j == i + 1 && j < before.len() implies #[trigger] adjacency[before[i]][before[j]] by {
            assert(adjacency[walk[i]][walk[j]]);
        }
        lemma_walk_reaches(adjacency, before);
        let n = walk.len() as int;
        assert(adjacency[walk[n - 2]][walk[n - 1]]);
        lemma_within_step(adjacency, (n - 2) as nat, walk[0], walk[n - 2], walk[n - 1]);
    }
}

/// The distance between two vertices is the least number of edges that leads
/// from one to the other.
pub proof fn distance_is_the_least_reach(adjacency: Seq<Seq<bool>>, k: nat, u: int, v: int)
    ensures
        at_distance(adjacency, k, u, v) <==> within(adjacency, k, u, v) && forall|j: nat|
            j < k ==> !#[trigger] within(adjacency, j, u, v),
{
    if at_distance(adjacency, k, u, v) {
        assert forall|j: nat| j < k implies !#[trigger] within(adjacency, j, u, v) by {
            if within(adjacency, j, u, v) {
                lemma_within_grows(adjacency, j, (k - 1) as nat, u, v);
            }
        }
    }
}

/// A shell holds each unordered pair of vertices at its distance exactly once,
/// the smaller vertex first and the pairs in their order, and nothing else.
pub proof fn shells_hold_the_pairs_at_their_distance(
    adjacency: Seq<Seq<bool>>,
    k: nat,
    pairs: Seq<(usize, usize)>,
)
    requires
        is_shell(adjacency, k, pairs),
    ensures
        forall|a: usize, b: usize|
            #[trigger] pairs.contains((a, b)) <==> a < b && b < adjacency.len() && at_distance(
                adjacency,
                k,
                a as int,
                b as int,
            ),
        forall|i: int, j: int|
            0 <= i < j < pairs.len() ==> (#[trigger] pairs[i]).0 < (#[trigger] pairs[j]).0 || (
            pairs[i].0 == pairs[j].0 && pairs[i].1 < pairs[j].1),
{
    assert forall|a: usize, b: usize| #[trigger] pairs.contains((a, b)) <==> a < b && b
        < adjacency.len() && at_distance(adjacency, k, a as int, b as int) by {
        assert(pairs.contains((a, b)) <==> shell_member(adjacency, k, (a, b)));
    }
    assert forall|i: int, j: int| 0 <= i < j < pairs.len() implies (#[trigger] pairs[i]).0 < (
    #[trigger] pairs[j]).0 || (pairs[i].0 == pairs[j].0 && pairs[i].1 < pairs[j].1) by {
        assert(pair_before(pairs[i], pairs[j]));
    }
}

/// The number of leading populated shells counts the distances from 1 on at
/// which some pair lies, up to the first distance at which none does or to the
/// limit.
pub proof fn leading_shells_end_at_the_first_empty_one(
    adjacency: Seq<Seq<bool>>,
    limit: nat,
    k: nat,
)
    ensures
        leading_populated(adjacency, limit) <= limit,
        1 <= k <= leading_populated(adjacency, limit) ==> exists|a: usize, b: usize|
            a < b && b < adjacency.len() && #[trigger] at_distance(
                adjacency,
                k,
                a as int,
                b as int,
            ),
        leading_populated(adjacency, limit) < limit ==> forall|a: usize, b: usize|
            a < b && b < adjacency.len() ==> !#[trigger] at_distance(
                adjacency,
                leading_populated(adjacency, limit) + 1,
                a as int,
                b as int,
            ),
    decreases limit,
{
    if limit > 0 {
        leading_shells_end_at_the_first_empty_one(adjacency, (limit - 1) as nat, k);
        if populated(adjacency, limit) {
            let pair = choose|pair: (usize, usize)| #[trigger] shell_member(adjacency, limit, pair);
            assert(at_distance(adjacency, limit, pair.0 as int, pair.1 as int));
        } else {
            assert forall|a: usize, b: usize| a < b && b
                < adjacency.len() implies !#[trigger] at_distance(
                adjacency,
                limit,
                a as int,
                b as int,
            ) by {
                assert(!shell_member(adjacency, limit, (a, b)));
            }
        }
    }
}

} // verus!
