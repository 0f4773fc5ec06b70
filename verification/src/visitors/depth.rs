//! The state of a depth-first walk, and why each of its steps keeps it in
//! order.
use vstd::prelude::*;

use crate::collections::lemma_push_to_set;
use crate::graph::GraphView;
use crate::reach::{
    closed_outside, entered_at, enters_along_edges, follows_at, fresh_reach,
    lemma_closed_holds_reach, lemma_entered_keep, lemma_follows_keep, lemma_reaches_itself,
    lemma_reaches_onward, reaches_avoiding, run_holds,
};

verus! {

/// A vertex whose successors a depth-first walk is going through: the
/// vertex, its successors in the order in which they are taken, and how many
/// of them have been taken.
pub struct Frame {
    pub vertex: usize,
    pub neighbours: Vec<usize>,
    pub next: usize,
}

/// The successors of the vertices of `stack` that are still to be taken, and
/// one for each vertex to be left: what is left to do without a new vertex.
pub open spec fn remaining(stack: Seq<Frame>) -> nat
    decreases stack.len(),
{
    if stack.len() == 0 {
        0
    } else {
        remaining(stack.drop_last()) + (stack.last().neighbours@.len() - stack.last().next) as nat
            + 1
    }
}

/// What a walk that is at place `at` of `block` must not touch: the vertices
/// to avoid from the outset, and those that stand before that place.
pub open spec fn shut(avoid: Set<usize>, block: Seq<usize>, at: int) -> Set<usize> {
    avoid + block.take(at).to_set()
}

/// `frame` lists the successors of its vertex, and those taken are marked.
pub open spec fn frame_holds<T>(graph: GraphView<T>, marked: Set<usize>, frame: Frame) -> bool {
    &&& frame.neighbours@.to_set() == graph.successors(frame.vertex)
    &&& frame.next <= frame.neighbours@.len()
    &&& forall|k: int| 0 <= k < frame.next ==> marked.contains(#[trigger] frame.neighbours@[k])
}

/// The state of a depth-first walk: `block` holds the vertices passed, in
/// order; `stack` those whose successors are being gone through, each later
/// one passed after the one before it, at the places `places` of `block`.
/// Each vertex not in `stack` is followed at once by all that it reaches
/// afresh; each vertex in `stack` reaches afresh all that was passed after it.
pub open spec fn walking<T>(
    graph: GraphView<T>,
    avoid: Set<usize>,
    block: Seq<usize>,
    stack: Seq<Frame>,
    places: Seq<int>,
) -> bool {
    &&& places.len() == stack.len()
    &&& block.no_duplicates()
    &&& block.to_set().disjoint(avoid)
    &&& forall|i: int|
        0 <= i < stack.len() ==> 0 <= #[trigger] places[i] < block.len() && stack[i].vertex
            == block[places[i]] && frame_holds(graph, avoid + block.to_set(), stack[i])
    &&& forall|i: int, j: int| 0 <= i < j < stack.len() ==> places[i] < places[j]
    &&& forall|i: int, at: int|
        0 <= i < stack.len() && places[i] <= at < block.len() ==> reaches_avoiding(
            graph.edges,
            shut(avoid, block, #[trigger] places[i]),
            block[places[i]],
            #[trigger] block[at],
        )
    &&& forall|at: int|
        0 <= at < block.len() ==> places.contains(at) || #[trigger] follows_at(
            graph.edges,
            avoid,
            block,
            at,
        )
    &&& enters_along_edges(graph.edges, avoid, block)
}

/// A walk that has just passed its first vertex is in order.
pub proof fn lemma_walk_begin<T>(graph: GraphView<T>, avoid: Set<usize>, frame: Frame)
    requires
        !avoid.contains(frame.vertex),
        frame.next == 0,
        frame.neighbours@.to_set() == graph.successors(frame.vertex),
    ensures
        walking(graph, avoid, seq![frame.vertex], seq![frame], seq![0int]),
{
    let block = seq![frame.vertex];
    let places = seq![0int];
    assert(block.take(0) =~= Seq::<usize>::empty());
    assert(shut(avoid, block, 0) =~= avoid);
    lemma_reaches_itself(graph.edges, avoid, frame.vertex);
    assert(places[0] == 0);
    assert(places.contains(0));
    assert forall|x: usize| block.to_set().contains(x) implies !avoid.contains(x) by {
        let k = choose|k: int| 0 <= k < block.len() && block[k] == x;
    }
}

/// When the walk has looked at the next successor of a vertex of its stack,
/// and that one is marked, the walk stays in order.
pub proof fn lemma_walk_advance<T>(
    graph: GraphView<T>,
    avoid: Set<usize>,
    block: Seq<usize>,
    stack: Seq<Frame>,
    places: Seq<int>,
    at: int,
    moved: Frame,
)
    requires
        walking(graph, avoid, block, stack, places),
        0 <= at < stack.len(),
        stack[at].next < stack[at].neighbours@.len(),
        (avoid + block.to_set()).contains(stack[at].neighbours@[stack[at].next as int]),
        moved.vertex == stack[at].vertex,
        moved.neighbours@ == stack[at].neighbours@,
        moved.next == stack[at].next + 1,
    ensures
        walking(graph, avoid, block, stack.update(at, moved), places),
{
    let after = stack.update(at, moved);
    assert forall|i: int| 0 <= i < after.len() implies 0 <= #[trigger] places[i] < block.len()
        && after[i].vertex == block[places[i]] && frame_holds(
        graph,
        avoid + block.to_set(),
        after[i],
    ) by {
        assert(0 <= places[i] < block.len() && stack[i].vertex == block[places[i]]);
        assert(frame_holds(graph, avoid + block.to_set(), stack[i]));
    }
}

/// With one more successor of the vertex on top of the stack taken, less
/// is left to do.
pub proof fn lemma_remaining_less(stack: Seq<Frame>, moved: Frame)
    requires
        stack.len() > 0,
        stack.last().next < stack.last().neighbours@.len(),
        moved.neighbours@ == stack.last().neighbours@,
        moved.next == stack.last().next + 1,
    ensures
        remaining(stack.drop_last().push(moved)) < remaining(stack),
{
    let after = stack.drop_last().push(moved);
    assert(after.drop_last() =~= stack.drop_last());
}

/// With the vertex on top of the stack left, less is left to do.
pub proof fn lemma_remaining_drop(stack: Seq<Frame>)
    requires
        stack.len() > 0,
        stack.last().next <= stack.last().neighbours@.len(),
    ensures
        remaining(stack.drop_last()) < remaining(stack),
{
}

/// The vertices before a place of a block are the same when the block has
/// grown.
pub proof fn lemma_shut_kept(avoid: Set<usize>, block: Seq<usize>, next: usize, at: int)
    requires
        0 <= at <= block.len(),
    ensures
        shut(avoid, block.push(next), at) == shut(avoid, block, at),
{
    assert(block.push(next).take(at) =~= block.take(at));
}

/// When the walk passes a new vertex, a successor of the vertex on top of
/// its stack, and puts it on the stack, the walk stays in order.
pub proof fn lemma_walk_push<T>(
    graph: GraphView<T>,
    avoid: Set<usize>,
    block: Seq<usize>,
    stack: Seq<Frame>,
    places: Seq<int>,
    frame: Frame,
)
    requires
        walking(graph, avoid, block, stack, places),
        stack.len() > 0,
        graph.edges.contains((stack.last().vertex, frame.vertex)),
        !avoid.contains(frame.vertex),
        !block.to_set().contains(frame.vertex),
        frame.next == 0,
        frame.neighbours@.to_set() == graph.successors(frame.vertex),
    ensures
        walking(
            graph,
            avoid,
            block.push(frame.vertex),
            stack.push(frame),
            places.push(block.len() as int),
        ),
{
    let next = frame.vertex;
    let grown = block.push(next);
    let higher = stack.push(frame);
    let marks = places.push(block.len() as int);
    let top = stack.len() - 1;
    lemma_push_to_set(block, next);
    assert(0 <= places[top] < block.len());
    assert forall|i: int| 0 <= i < higher.len() implies 0 <= #[trigger] marks[i] < grown.len()
        && higher[i].vertex == grown[marks[i]] && frame_holds(
        graph,
        avoid + grown.to_set(),
        higher[i],
    ) by {
        if i < stack.len() {
            assert(marks[i] == places[i]);
            assert(0 <= places[i] < block.len());
            assert(frame_holds(graph, avoid + block.to_set(), stack[i]));
        }
    }
    assert forall|i: int, j: int| 0 <= i < j < higher.len() implies marks[i] < marks[j] by {
        assert(0 <= places[i] < block.len());
        if j < stack.len() {
            assert(marks[i] == places[i] && marks[j] == places[j]);
        }
    }
    assert forall|i: int, at: int|
        0 <= i < higher.len() && marks[i] <= at < grown.len() implies reaches_avoiding(
        graph.edges,
        shut(avoid, grown, #[trigger] marks[i]),
        grown[marks[i]],
        #[trigger] grown[at],
    ) by {
        if i < stack.len() {
            assert(marks[i] == places[i]);
            assert(0 <= places[i] < block.len());
            lemma_shut_kept(avoid, block, next, places[i]);
            if at < block.len() {
                assert(grown[at] == block[at]);
                assert(reaches_avoiding(
                    graph.edges,
                    shut(avoid, block, places[i]),
                    block[places[i]],
                    block[at],
                ));
            } else {
                assert(places[i] <= places[top]);
                assert(reaches_avoiding(
                    graph.edges,
                    shut(avoid, block, places[i]),
                    block[places[i]],
                    block[places[top]],
                ));
                assert(!shut(avoid, block, places[i]).contains(next)) by {
                    if block.take(places[i]).to_set().contains(next) {
                        let k = choose|k: int|
                            0 <= k < block.take(places[i]).len() && block.take(places[i])[k]
                                == next;
                        assert(block[k] == next);
                    }
                }
                lemma_reaches_onward(
                    graph.edges,
                    shut(avoid, block, places[i]),
                    block[places[i]],
                    block[places[top]],
                    next,
                );
            }
        } else {
            assert(grown.take(block.len() as int) =~= block);
            lemma_reaches_itself(graph.edges, shut(avoid, grown, block.len() as int), next);
        }
    }
    assert forall|at: int| 0 <= at < grown.len() implies marks.contains(at) || #[trigger] follows_at(
        graph.edges,
        avoid,
        grown,
        at,
    ) by {
        if at == block.len() {
            assert(marks[stack.len() as int] == at);
        } else if places.contains(at) {
            let i = choose|i: int| 0 <= i < places.len() && places[i] == at;
            assert(marks[i] == at);
        } else {
            assert(follows_at(graph.edges, avoid, block, at));
            lemma_follows_keep(graph.edges, avoid, block, seq![next], at);
            assert(block + seq![next] =~= grown);
        }
    }
    assert forall|at: int| 0 < at < grown.len() implies #[trigger] entered_at(
        graph.edges,
        avoid,
        grown,
        at,
    ) by {
        if at < block.len() {
            assert(entered_at(graph.edges, avoid, block, at));
            lemma_entered_keep(graph.edges, avoid, block, seq![next], at);
            assert(block + seq![next] =~= grown);
        } else {
            let from = places[top];
            assert(marks[top] == from);
            assert(reaches_avoiding(
                graph.edges,
                shut(avoid, grown, marks[top]),
                grown[marks[top]],
                grown[at],
            ));
            assert(run_holds(graph.edges, avoid, grown, from, at));
            assert(grown[from] == stack[top].vertex);
            assert forall|between: int| from < between < at implies !#[trigger] run_holds(
                graph.edges,
                avoid,
                grown,
                between,
                at,
            ) by {
                assert(!places.contains(between)) by {
                    if places.contains(between) {
                        let i = choose|i: int| 0 <= i < places.len() && places[i] == between;
                        if i < top {
                            assert(places[i] < places[top]);
                        }
                    }
                }
                assert(follows_at(graph.edges, avoid, block, between));
                let end = choose|end: int|
                    between < end <= block.len() && #[trigger] block.subrange(
                        between,
                        end,
                    ).to_set() == fresh_reach(
                        graph.edges,
                        avoid + block.take(between).to_set(),
                        block[between],
                    );
                assert(grown.take(between) =~= block.take(between));
                if run_holds(graph.edges, avoid, grown, between, at) {
                    assert(block.subrange(between, end).to_set().contains(next));
                    let k = choose|k: int|
                        0 <= k < block.subrange(between, end).len() && block.subrange(
                            between,
                            end,
                        )[k] == next;
                    assert(block[between + k] == next);
                    assert(block.to_set().contains(next));
                }
            }
        }
    }
}

/// When all successors of the vertex on top of the stack have been taken,
/// what was passed from that vertex on is all that it reaches afresh; the
/// vertex leaves the stack, and the walk stays in order.
pub proof fn lemma_walk_pop<T>(
    graph: GraphView<T>,
    avoid: Set<usize>,
    block: Seq<usize>,
    stack: Seq<Frame>,
    places: Seq<int>,
)
    requires
        walking(graph, avoid, block, stack, places),
        stack.len() > 0,
        stack.last().next == stack.last().neighbours@.len(),
    ensures
        walking(graph, avoid, block, stack.drop_last(), places.drop_last()),
        remaining(stack.drop_last()) < remaining(stack),
        block.subrange(places.last(), block.len() as int).to_set() == fresh_reach(
            graph.edges,
            shut(avoid, block, places.last()),
            block[places.last()],
        ),
{
    let edges = graph.edges;
    let top = stack.len() - 1;
    let frame = stack[top];
    let place = places[top];
    assert(0 <= places[top] < block.len());
    let vertex = block[place];
    let tail = block.subrange(place, block.len() as int);
    let set = tail.to_set();
    let shut_here = shut(avoid, block, place);
    assert(frame_holds(graph, avoid + block.to_set(), frame));
    // what stands before the place, or is to be avoided, is not in the tail
    assert forall|x: usize| (avoid + block.to_set()).contains(x) && !shut_here.contains(
        x,
    ) implies set.contains(x) by {
        let k = choose|k: int| 0 <= k < block.len() && block[k] == x;
        if k < place {
            assert(block.take(place)[k] == x);
        } else {
            assert(tail[k - place] == x);
        }
    }
    assert(closed_outside(edges, shut_here, set)) by {
        assert forall|from: usize, to: usize|
            set.contains(from) && #[trigger] edges.contains((from, to)) && !shut_here.contains(
                to,
            ) implies set.contains(to) by {
            let k = choose|k: int| 0 <= k < tail.len() && tail[k] == from;
            let at = place + k;
            assert(block[at] == from);
            if at == place {
                assert(graph.successors(vertex).contains(to));
                assert(frame.neighbours@.to_set().contains(to));
                let n = choose|n: int|
                    0 <= n < frame.neighbours@.len() && frame.neighbours@[n] == to;
                assert((avoid + block.to_set()).contains(frame.neighbours@[n]));
            } else {
                assert(!places.contains(at)) by {
                    if places.contains(at) {
                        let i = choose|i: int| 0 <= i < places.len() && places[i] == at;
                        if i < top {
                            assert(places[i] < places[top]);
                        }
                    }
                }
                assert(follows_at(edges, avoid, block, at));
                let shut_there = shut(avoid, block, at);
                let end = choose|end: int|
                    at < end <= block.len() && #[trigger] block.subrange(at, end).to_set()
                        == fresh_reach(edges, shut_there, block[at]);
                if shut_there.contains(to) {
                    if !avoid.contains(to) {
                        let m = choose|m: int|
                            0 <= m < block.take(at).len() && block.take(at)[m] == to;
                        assert(block[m] == to);
                        assert(block.to_set().contains(to));
                    }
                } else {
                    assert(!shut_there.contains(from)) by {
                        assert(block.to_set().contains(from));
                        if block.take(at).to_set().contains(from) {
                            let m = choose|m: int|
                                0 <= m < block.take(at).len() && block.take(at)[m] == from;
                            assert(block[m] == block[at]);
                        }
                    }
                    lemma_reaches_itself(edges, shut_there, from);
                    lemma_reaches_onward(edges, shut_there, from, from, to);
                    assert(fresh_reach(edges, shut_there, from).contains(to));
                    let m = choose|m: int|
                        0 <= m < block.subrange(at, end).len() && block.subrange(at, end)[m]
                            == to;
                    assert(block[at + m] == to);
                    assert(block.to_set().contains(to));
                }
            }
        }
    }
    assert(set.contains(vertex)) by {
        assert(tail[0] == vertex);
    }
    lemma_closed_holds_reach(edges, shut_here, set, vertex);
    assert forall|x: usize| set.contains(x) implies fresh_reach(edges, shut_here, vertex).contains(
        x,
    ) by {
        let k = choose|k: int| 0 <= k < tail.len() && tail[k] == x;
        assert(block[place + k] == x);
        assert(reaches_avoiding(edges, shut(avoid, block, places[top]), block[places[top]], block[place + k]));
    }
    assert(set =~= fresh_reach(edges, shut_here, vertex));
    assert(follows_at(edges, avoid, block, place));
    // the walk without the vertex on top
    let lower = stack.drop_last();
    let marks = places.drop_last();
    assert forall|i: int| 0 <= i < lower.len() implies 0 <= #[trigger] marks[i] < block.len()
        && lower[i].vertex == block[marks[i]] && frame_holds(
        graph,
        avoid + block.to_set(),
        lower[i],
    ) by {
        assert(marks[i] == places[i]);
        assert(0 <= places[i] < block.len());
    }
    assert forall|i: int, j: int| 0 <= i < j < lower.len() implies marks[i] < marks[j] by {
        assert(marks[i] == places[i] && marks[j] == places[j]);
    }
    assert forall|i: int, at: int|
        0 <= i < lower.len() && marks[i] <= at < block.len() implies reaches_avoiding(
        edges,
        shut(avoid, block, #[trigger] marks[i]),
        block[marks[i]],
        #[trigger] block[at],
    ) by {
        assert(marks[i] == places[i]);
        assert(reaches_avoiding(edges, shut(avoid, block, places[i]), block[places[i]], block[at]));
    }
    assert forall|at: int| 0 <= at < block.len() implies marks.contains(at) || #[trigger] follows_at(
        edges,
        avoid,
        block,
        at,
    ) by {
        if at != place && places.contains(at) {
            let i = choose|i: int| 0 <= i < places.len() && places[i] == at;
            assert(marks[i] == at);
        }
    }
}

} // verus!
