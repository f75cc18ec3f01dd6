//! Ranking values from the largest down, ties by ascending index.

use crate::double::Double;
use vstd::prelude::*;
use vstd::set_lib::{lemma_int_range, lemma_map_size, set_int_range};

verus! {

/// Index `a` ranks before index `b`: its value comes later in the total order,
/// or the values coincide and the index is smaller.
pub open spec fn ranks_before(values: Seq<Double>, a: int, b: int) -> bool {
    values[a].total_rank() > values[b].total_rank() || (values[a].total_rank()
        == values[b].total_rank() && a < b)
}

/// `order` holds every index of `values` once, each before all that it ranks
/// before.
pub open spec fn is_ranking(values: Seq<Double>, order: Seq<usize>) -> bool {
    &&& order.len() == values.len()
    &&& forall|i: int| 0 <= i < order.len() ==> (#[trigger] order[i]) < values.len()
    &&& forall|index: usize| index < values.len() ==> #[trigger] order.contains(index)
    &&& forall|i: int, j: int|
        0 <= i < j < order.len() ==> ranks_before(
            values,
            #[trigger] order[i] as int,
            #[trigger] order[j] as int,
        )
}

/// The indices of `values` from the largest value down.
pub open spec fn ranking(values: Seq<Double>) -> Seq<usize> {
    choose|order: Seq<usize>| is_ranking(values, order)
}

proof fn lemma_same_order(values: Seq<Double>, left: Seq<usize>, right: Seq<usize>)
    requires
        forall|i: int, j: int|
            0 <= i < j < left.len() ==> ranks_before(
                values,
                #[trigger] left[i] as int,
                #[trigger] left[j] as int,
            ),
        forall|i: int, j: int|
            0 <= i < j < right.len() ==> ranks_before(
                values,
                #[trigger] right[i] as int,
                #[trigger] right[j] as int,
            ),
        forall|index: usize| left.contains(index) <==> #[trigger] right.contains(index),
    ensures
        left == right,
    decreases left.len(),
{
    if left.len() == 0 {
        if right.len() > 0 {
            assert(right.contains(right[0]));
        }
        assert(left =~= right);
    } else {
        assert(left.contains(left.last()));
        assert(right.contains(left.last()));
        let i = choose|i: int| 0 <= i < right.len() && right[i] == left.last();
        assert(right.contains(right.last()));
        let j = choose|j: int| 0 <= j < left.len() && left[j] == right.last();
        assert(left.last() == right.last()) by {
            if i < right.len() - 1 && j < left.len() - 1 {
                assert(ranks_before(values, right[i] as int, right[right.len() - 1] as int));
                assert(ranks_before(values, left[j] as int, left[left.len() - 1] as int));
            }
        }
        let (a, b) = (left.drop_last(), right.drop_last());
        assert forall|index: usize| a.contains(index) <==> #[trigger] b.contains(index) by {
            if a.contains(index) {
                let n = choose|n: int| 0 <= n < a.len() && a[n] == index;
                assert(left[n] == index);
                assert(ranks_before(values, left[n] as int, left[left.len() - 1] as int));
                assert(left.contains(index));
                assert(right.contains(index));
                let m = choose|m: int| 0 <= m < right.len() && right[m] == index;
                assert(b[m] == index);
            }
            if b.contains(index) {
                let n = choose|n: int| 0 <= n < b.len() && b[n] == index;
                assert(right[n] == index);
                assert(ranks_before(values, right[n] as int, right[right.len() - 1] as int));
                assert(right.contains(index));
                assert(left.contains(index));
                let m = choose|m: int| 0 <= m < left.len() && left[m] == index;
                assert(a[m] == index);
            }
        }
        lemma_same_order(values, a, b);
        assert(left =~= a.push(left.last()));
        assert(right =~= b.push(right.last()));
    }
}

/// Values have one ranking, and [`ranking`] is it.
pub proof fn ranking_is_unique(values: Seq<Double>, order: Seq<usize>)
    requires
        is_ranking(values, order),
    ensures
        order == ranking(values),
{
    let chosen = ranking(values);
    assert(is_ranking(values, chosen));
    assert forall|index: usize| order.contains(index) <==> #[trigger] chosen.contains(index) by {
        if order.contains(index) {
            let i = choose|i: int| 0 <= i < order.len() && order[i] == index;
            assert(order[i] < values.len());
        }
        if chosen.contains(index) {
            let i = choose|i: int| 0 <= i < chosen.len() && chosen[i] == index;
            assert(chosen[i] < values.len());
        }
    }
    lemma_same_order(values, order, chosen);
}

/// The first `known` indices in ranking order.
proof fn ranked_prefix(values: Seq<Double>, known: nat) -> (order: Seq<usize>)
    requires
        known <= values.len(),
        values.len() <= usize::MAX,
    ensures
        order.len() == known,
        forall|i: int| 0 <= i < known ==> (#[trigger] order[i]) < known,
        forall|index: usize| index < known ==> #[trigger] order.contains(index),
        forall|i: int, j: int|
            0 <= i < j < known ==> ranks_before(
                values,
                #[trigger] order[i] as int,
                #[trigger] order[j] as int,
            ),
    decreases known,
{
    if known == 0 {
        Seq::empty()
    } else {
        let newest = (known - 1) as usize;
        let before = ranked_prefix(values, (known - 1) as nat);
        let place = insertion_place(values, before, newest, before.len());
        let order = before.insert(place as int, newest);
        lemma_insertion(values, before, newest, place as int);
        order
    }
}

/// Where `newest` goes among the first `upper` entries of a ranking of the
/// smaller indices.
proof fn insertion_place(
    values: Seq<Double>,
    order: Seq<usize>,
    newest: usize,
    upper: nat,
) -> (place: nat)
    requires
        order.len() == newest,
        upper <= order.len(),
        forall|i: int| 0 <= i < order.len() ==> (#[trigger] order[i]) < newest,
        forall|i: int|
            upper <= i < order.len() ==> ranks_before(
                values,
                newest as int,
                #[trigger] order[i] as int,
            ),
    ensures
        place <= upper,
        forall|i: int|
            place <= i < order.len() ==> ranks_before(
                values,
                newest as int,
                #[trigger] order[i] as int,
            ),
        place > 0 ==> values[newest as int].total_rank() <= values[order[place
            - 1] as int].total_rank(),
    decreases upper,
{
    if upper > 0 && values[newest as int].total_rank() > values[order[upper
        - 1] as int].total_rank() {
        insertion_place(values, order, newest, (upper - 1) as nat)
    } else {
        upper
    }
}

/// Inserting the next index at its place keeps a ranking of the indices so
/// far.
proof fn lemma_insertion(values: Seq<Double>, before: Seq<usize>, newest: usize, place: int)
    requires
        before.len() == newest,
        0 <= place <= before.len(),
        forall|i: int| 0 <= i < newest ==> (#[trigger] before[i]) < newest,
        forall|index: usize| index < newest ==> #[trigger] before.contains(index),
        forall|i: int, j: int|
            0 <= i < j < newest ==> ranks_before(
                values,
                #[trigger] before[i] as int,
                #[trigger] before[j] as int,
            ),
        forall|i: int|
            place <= i < newest ==> ranks_before(
                values,
                newest as int,
                #[trigger] before[i] as int,
            ),
        place > 0 ==> values[newest as int].total_rank() <= values[before[place
            - 1] as int].total_rank(),
    ensures
        ({
            let order = before.insert(place, newest);
            &&& order.len() == newest + 1
            &&& forall|i: int| 0 <= i < newest + 1 ==> (#[trigger] order[i]) < newest + 1
            &&& forall|index: usize| index < newest + 1 ==> #[trigger] order.contains(index)
            &&& forall|i: int, j: int|
                0 <= i < j < newest + 1 ==> ranks_before(
                    values,
                    #[trigger] order[i] as int,
                    #[trigger] order[j] as int,
                )
        }),
{
    let order = before.insert(place, newest);
    assert forall|index: usize| index < newest + 1 implies #[trigger] order.contains(index) by {
        if index == newest {
            assert(order[place] == index);
        } else {
            assert(before.contains(index));
            let i = choose|i: int| 0 <= i < before.len() && before[i] == index;
            if i < place {
                assert(order[i] == index);
            } else {
                assert(order[i + 1] == index);
            }
        }
    }
    assert forall|i: int, j: int| 0 <= i < j < newest + 1 implies ranks_before(
        values,
        #[trigger] order[i] as int,
        #[trigger] order[j] as int,
    ) by {
        let a = if i < place {
            before[i]
        } else {
            before[i - 1]
        };
        let b = if j < place {
            before[j]
        } else {
            before[j - 1]
        };
        if i == place {
            assert(order[j] == before[j - 1]);
        } else if j == place {
            assert(order[i] == before[i]);
            if i < place - 1 {
                assert(ranks_before(values, before[i] as int, before[place - 1] as int));
            }
        } else {
            assert(order[i] == a);
            assert(order[j] == b);
        }
    }
}

/// Every row of values has a ranking.
pub proof fn ranking_exists(values: Seq<Double>)
    requires
        values.len() <= usize::MAX,
    ensures
        is_ranking(values, ranking(values)),
{
    let order = ranked_prefix(values, values.len());
    assert(is_ranking(values, order));
}

/// The indices of `values` from the largest value down in the total order,
/// ties by ascending index.
pub fn descending_order(values: &[Double]) -> (order: Vec<usize>)
    ensures
        is_ranking(values@, order@),
        order@ == ranking(values@),
{
    let mut order: Vec<usize> = Vec::new();
    let mut index: usize = 0;
    while index < values.len()
        invariant
            index <= values@.len(),
            order@.len() == index,
            forall|i: int| 0 <= i < index ==> (#[trigger] order@[i]) < index,
            forall|known: usize| known < index ==> #[trigger] order@.contains(known),
            forall|i: int, j: int|
                0 <= i < j < index ==> ranks_before(
                    values@,
                    #[trigger] order@[i] as int,
                    #[trigger] order@[j] as int,
                ),
        decreases values@.len() - index,
    {
        let mut place: usize = index;
        while place > 0 && values[index].totally_exceeds(values[order[place - 1]])
            invariant
                place <= index < values@.len(),
                order@.len() == index,
                forall|i: int| 0 <= i < index ==> (#[trigger] order@[i]) < index,
                forall|i: int|
                    place <= i < index ==> ranks_before(
                        values@,
                        index as int,
                        #[trigger] order@[i] as int,
                    ),
            decreases place,
        {
            place -= 1;
        }
        let ghost before = order@;
        order.insert(place, index);
        proof {
            lemma_insertion(values@, before, index, place as int);
        }
        index += 1;
    }
    proof {
        ranking_is_unique(values@, order@);
    }
    order
}

/// A ranking is a sort: it holds every index exactly once, from the largest
/// value in the total order down, and equal values by ascending index.
pub proof fn rankings_sort(values: Seq<Double>, order: Seq<usize>)
    requires
        is_ranking(values, order),
    ensures
        order.len() == values.len(),
        order.no_duplicates(),
        forall|i: int| 0 <= i < order.len() ==> (#[trigger] order[i]) < values.len(),
        forall|index: usize| index < values.len() ==> #[trigger] order.contains(index),
        forall|i: int, j: int|
            0 <= i < j < order.len() ==> {
                let (a, b) = (#[trigger] order[i], #[trigger] order[j]);
                values[a as int].total_rank() > values[b as int].total_rank() || (
                values[a as int].total_rank() == values[b as int].total_rank() && a < b)
            },
{
    assert forall|i: int, j: int| 0 <= i < order.len() && 0 <= j < order.len() && i
        != j implies order[i] != order[j] by {
        if i < j {
            assert(ranks_before(values, order[i] as int, order[j] as int));
        } else {
            assert(ranks_before(values, order[j] as int, order[i] as int));
        }
    }
    assert forall|i: int, j: int| 0 <= i < j < order.len() implies {
        let (a, b) = (#[trigger] order[i], #[trigger] order[j]);
        values[a as int].total_rank() > values[b as int].total_rank() || (
        values[a as int].total_rank() == values[b as int].total_rank() && a < b)
    } by {
        assert(ranks_before(values, order[i] as int, order[j] as int));
    }
}

/// Every sort of the indices from the largest value down, equal values by
/// ascending index, is the ranking.
pub proof fn sorts_are_the_ranking(values: Seq<Double>, order: Seq<usize>)
    requires
        order.len() == values.len(),
        forall|i: int| 0 <= i < order.len() ==> (#[trigger] order[i]) < values.len(),
        forall|index: usize| index < values.len() ==> #[trigger] order.contains(index),
        forall|i: int, j: int|
            0 <= i < j < order.len() ==> {
                let (a, b) = (#[trigger] order[i], #[trigger] order[j]);
                values[a as int].total_rank() > values[b as int].total_rank() || (
                values[a as int].total_rank() == values[b as int].total_rank() && a < b)
            },
    ensures
        order == ranking(values),
{
    assert forall|i: int, j: int| 0 <= i < j < order.len() implies ranks_before(
        values,
        #[trigger] order[i] as int,
        #[trigger] order[j] as int,
    ) by {}
    assert(is_ranking(values, order));
    ranking_is_unique(values, order);
}

/// An index stands in a ranking behind exactly the indices of larger values and
/// the smaller indices of equal ones.
pub proof fn places_count_those_before(values: Seq<Double>, order: Seq<usize>, i: int)
    requires
        is_ranking(values, order),
        values.len() <= usize::MAX,
        0 <= i < order.len(),
    ensures
        set_int_range(0, values.len() as int).filter(
            |w: int|
                values[w].total_rank() > values[order[i] as int].total_rank() || (
                values[w].total_rank() == values[order[i] as int].total_rank() && w < order[i]),
        ).finite(),
        set_int_range(0, values.len() as int).filter(
            |w: int|
                values[w].total_rank() > values[order[i] as int].total_rank() || (
                values[w].total_rank() == values[order[i] as int].total_rank() && w < order[i]),
        ).len() == i,
{
    rankings_sort(values, order);
    let ahead = set_int_range(0, values.len() as int).filter(
        |w: int|
            values[w].total_rank() > values[order[i] as int].total_rank() || (
            values[w].total_rank() == values[order[i] as int].total_rank() && w < order[i]),
    );
    let places = set_int_range(0, i);
    lemma_int_range(0, i);
    let at = |k: int| order[k] as int;
    assert forall|a: int, b: int|
        places.contains(a) && places.contains(b) && #[trigger] at(a) == #[trigger] at(
            b,
        ) implies a == b by {
        assert(order[a] == order[b]);
    }
    assert forall|w: int| ahead.contains(w) implies exists|k: int|
        places.contains(k) && #[trigger] at(k) == w by {
        assert(order.contains(w as usize));
        let k = choose|k: int| 0 <= k < order.len() && order[k] == w as usize;
        if i < k {
            let (a, b) = (order[i], order[k]);
        }
        assert(at(k) == w);
    }
    assert forall|k: int| places.contains(k) implies ahead.contains(#[trigger] at(k)) by {
        let (a, b) = (order[k], order[i]);
    }
    assert(places.map(at) =~= ahead);
    lemma_map_size(places, ahead, at);
}

} // verus!
