//! What holds of a walk over a whole graph, whatever kind of walk it is made
//! of.
use vstd::prelude::*;

use crate::reach::{
    closed_outside, fresh_reach, lemma_closed_grows, lemma_reach_past_closed,
    lemma_reaches_avoiding_less, lemma_reaches_itself, reaches, reaches_avoiding,
};
use crate::visitors::graph_visitor::{chained, is_walk_from, WalkOrder};

verus! {

/// One of `starts` reaches `vertex`.
pub open spec fn some_reaches(edges: Set<(usize, usize)>, starts: Seq<usize>, vertex: usize) -> bool {
    exists|k: int| 0 <= k < starts.len() && #[trigger] reaches(edges, starts[k], vertex)
}

/// What walks from `starts`, one after the other, have passed holds every
/// successor of its members, holds each of `starts`, and holds nothing but
/// what some start reaches.
pub proof fn lemma_chained_closed(
    edges: Set<(usize, usize)>,
    order: WalkOrder,
    starts: Seq<usize>,
    trace: Seq<usize>,
)
    requires
        chained(edges, order, starts, trace),
    ensures
        closed_outside(edges, Set::empty(), trace.to_set()),
        forall|k: int| 0 <= k < starts.len() ==> trace.to_set().contains(#[trigger] starts[k]),
        forall|i: int| 0 <= i < trace.len() ==> some_reaches(edges, starts, #[trigger] trace[i]),
    decreases starts.len(),
{
    let nothing = Set::<usize>::empty();
    if starts.len() == 0 {
        assert(trace.to_set() =~= nothing);
    } else {
        let cut = choose|cut: int|
            0 <= cut <= trace.len() && chained(edges, order, starts.drop_last(), trace.take(cut))
                && #[trigger] is_walk_from(
                edges,
                order,
                trace.take(cut),
                starts.last(),
                trace.skip(cut),
            );
        let passed = trace.take(cut);
        let block = trace.skip(cut);
        let start = starts.last();
        lemma_chained_closed(edges, order, starts.drop_last(), passed);
        assert(trace =~= passed + block);
        vstd::seq_lib::seq_to_set_distributes_over_add(passed, block);
        lemma_closed_grows(edges, passed.to_set(), start);
        assert(trace.to_set() =~= passed.to_set() + fresh_reach(edges, passed.to_set(), start));
        assert forall|k: int| 0 <= k < starts.len() implies trace.to_set().contains(
            #[trigger] starts[k],
        ) by {
            if k < starts.len() - 1 {
                assert(starts.drop_last()[k] == starts[k]);
            } else if !passed.to_set().contains(start) {
                lemma_reaches_itself(edges, passed.to_set(), start);
            }
        }
        assert forall|i: int| 0 <= i < trace.len() implies some_reaches(
            edges,
            starts,
            #[trigger] trace[i],
        ) by {
            if i < cut {
                assert(passed[i] == trace[i]);
                assert(some_reaches(edges, starts.drop_last(), passed[i]));
                let k = choose|k: int|
                    0 <= k < starts.drop_last().len() && #[trigger] reaches(
                        edges,
                        starts.drop_last()[k],
                        passed[i],
                    );
                assert(reaches(edges, starts[k], trace[i]));
            } else {
                assert(block[i - cut] == trace[i]);
                assert(block.to_set().contains(trace[i]));
                lemma_reaches_avoiding_less(edges, passed.to_set(), nothing, start, trace[i]);
                assert(reaches(edges, starts[starts.len() - 1], trace[i]));
            }
        }
    }
}

/// A walk over a whole graph passes the vertices in the order of the first
/// start vertex that reaches them: where a start reaches a vertex of the
/// trace, that start or one before it reaches each vertex that stands
/// earlier in the trace.
pub proof fn lemma_chained_by_first_start(
    edges: Set<(usize, usize)>,
    order: WalkOrder,
    starts: Seq<usize>,
    trace: Seq<usize>,
    earlier: int,
    later: int,
    reaching: int,
) -> (first: int)
    requires
        chained(edges, order, starts, trace),
        0 <= earlier <= later < trace.len(),
        0 <= reaching < starts.len(),
        reaches(edges, starts[reaching], trace[later]),
    ensures
        0 <= first <= reaching,
        reaches(edges, starts[first], trace[earlier]),
    decreases starts.len(),
{
    let nothing = Set::<usize>::empty();
    let cut = choose|cut: int|
        0 <= cut <= trace.len() && chained(edges, order, starts.drop_last(), trace.take(cut))
            && #[trigger] is_walk_from(
            edges,
            order,
            trace.take(cut),
            starts.last(),
            trace.skip(cut),
        );
    let passed = trace.take(cut);
    let block = trace.skip(cut);
    let start = starts.last();
    let last = starts.len() - 1;
    lemma_chained_closed(edges, order, starts.drop_last(), passed);
    if later >= cut {
        assert(block[later - cut] == trace[later]);
        assert(block.to_set().contains(trace[later]));
        lemma_reach_past_closed(edges, passed.to_set(), start, trace[later]);
        if reaching < last {
            assert(starts.drop_last()[reaching] == starts[reaching]);
            assert(passed.to_set().contains(starts[reaching]));
            lemma_reach_past_closed(edges, passed.to_set(), starts[reaching], trace[later]);
            assert(false) by {
                let path = choose|path: Seq<usize>|
                    crate::reach::joins(
                        edges,
                        passed.to_set(),
                        path,
                        starts[reaching],
                        trace[later],
                    );
                assert(!passed.to_set().contains(path[0]));
            }
        }
        if earlier >= cut {
            assert(block[earlier - cut] == trace[earlier]);
            assert(block.to_set().contains(trace[earlier]));
            lemma_reaches_avoiding_less(edges, passed.to_set(), nothing, start, trace[earlier]);
            last
        } else {
            assert(passed[earlier] == trace[earlier]);
            assert(some_reaches(edges, starts.drop_last(), passed[earlier]));
            let k = choose|k: int|
                0 <= k < starts.drop_last().len() && #[trigger] reaches(
                    edges,
                    starts.drop_last()[k],
                    passed[earlier],
                );
            assert(starts.drop_last()[k] == starts[k]);
            k
        }
    } else {
        assert(passed[earlier] == trace[earlier] && passed[later] == trace[later]);
        if reaching < last {
            assert(starts.drop_last()[reaching] == starts[reaching]);
            let first = lemma_chained_by_first_start(
                edges,
                order,
                starts.drop_last(),
                passed,
                earlier,
                later,
                reaching,
            );
            assert(starts.drop_last()[first] == starts[first]);
            first
        } else {
            assert(some_reaches(edges, starts.drop_last(), passed[earlier]));
            let k = choose|k: int|
                0 <= k < starts.drop_last().len() && #[trigger] reaches(
                    edges,
                    starts.drop_last()[k],
                    passed[earlier],
                );
            assert(starts.drop_last()[k] == starts[k]);
            k
        }
    }
}

} // verus!
