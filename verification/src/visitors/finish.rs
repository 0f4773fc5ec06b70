//! The state of a walk that lists each vertex when it leaves it, and why each
//! of its steps keeps it in order.
use vstd::prelude::*;

use crate::collections::lemma_push_to_set;
use crate::graph::GraphView;
use crate::reach::{
    acyclic, closed_outside, fresh_reach, is_walk, lemma_closed_holds_reach, lemma_reaches_itself,
    lemma_reaches_onward, link, reaches_avoiding,
};
use crate::visitors::depth::Frame;

verus! {

/// Every successor of a vertex listed in `finished` is listed before it.
pub open spec fn successors_first(edges: Set<(usize, usize)>, finished: Seq<usize>) -> bool {
    forall|i: int, to: usize|
        0 <= i < finished.len() && #[trigger] edges.contains((finished[i], to)) ==> finished.take(
            i,
        ).contains(to)
}

/// The vertices of the frames of `stack`, from the bottom up.
pub open spec fn vertices_of(stack: Seq<Frame>) -> Seq<usize> {
    Seq::new(stack.len(), |i: int| stack[i].vertex)
}

/// The successor that the frame at place `i` of `stack` took last is the
/// vertex of the frame above it.
pub open spec fn holds_next(stack: Seq<Frame>, i: int) -> bool {
    stack[i].next > 0 && stack[i].neighbours@[stack[i].next - 1] == stack[i + 1].vertex
}

/// The state of a walk that lists vertices when it leaves them: `order` holds
/// the vertices left, each once; `stack` those whose successors are being gone
/// through, each the successor that the one below it took last. Where the
/// graph has no cycle, every successor of a vertex in `order` stands before it
/// there, and so does every successor that a vertex of `stack` has taken and
/// that is not itself on the stack.
pub open spec fn sorting<T>(graph: GraphView<T>, order: Seq<usize>, stack: Seq<Frame>) -> bool {
    &&& order.no_duplicates()
    &&& vertices_of(stack).no_duplicates()
    &&& order.to_set().disjoint(vertices_of(stack).to_set())
    &&& forall|i: int|
        0 <= i < stack.len() ==> (#[trigger] stack[i]).neighbours@.to_set() == graph.successors(
            stack[i].vertex,
        ) && stack[i].next <= stack[i].neighbours@.len()
    &&& forall|i: int| 0 <= i < stack.len() - 1 ==> #[trigger] holds_next(stack, i)
    &&& acyclic(graph.edges) ==> successors_first(graph.edges, order)
    &&& acyclic(graph.edges) ==> forall|i: int, k: int|
        0 <= i < stack.len() && 0 <= k < stack[i].next && (i == stack.len() - 1 || k
            < stack[i].next - 1) ==> order.contains(#[trigger] stack[i].neighbours@[k])
}

/// The vertices of a stack walk along edges, from the bottom up.
pub proof fn lemma_stack_walks<T>(graph: GraphView<T>, order: Seq<usize>, stack: Seq<Frame>, from: int)
    requires
        sorting(graph, order, stack),
        0 <= from < stack.len(),
    ensures
        is_walk(graph.edges, vertices_of(stack).skip(from)),
{
    let path = vertices_of(stack).skip(from);
    assert forall|i: int| 0 <= i < path.len() - 1 implies graph.edges.contains(
        #[trigger] link(path, i),
    ) by {
        let at = from + i;
        assert(holds_next(stack, at));
        let taken = stack[at].neighbours@[stack[at].next - 1];
        assert(stack[at].neighbours@.to_set().contains(taken));
        assert(graph.successors(stack[at].vertex).contains(taken));
        assert(path[i] == stack[at].vertex);
        assert(path[i + 1] == stack[at + 1].vertex);
    }
}

/// A walk that has just marked a vertex and put it on its empty stack is in
/// order.
pub proof fn lemma_sort_begin<T>(graph: GraphView<T>, order: Seq<usize>, frame: Frame)
    requires
        order.no_duplicates(),
        acyclic(graph.edges) ==> successors_first(graph.edges, order),
        !order.to_set().contains(frame.vertex),
        frame.next == 0,
        frame.neighbours@.to_set() == graph.successors(frame.vertex),
    ensures
        sorting(graph, order, seq![frame]),
        vertices_of(seq![frame]).to_set() == Set::<usize>::empty().insert(frame.vertex),
{
    let stack = seq![frame];
    let path = vertices_of(stack);
    assert(path =~= seq![frame.vertex]);
    assert(path[0] == frame.vertex);
    assert(path.to_set() =~= Set::<usize>::empty().insert(frame.vertex)) by {
        assert forall|x: usize| path.to_set().contains(x) implies x == frame.vertex by {
            let k = choose|k: int| 0 <= k < path.len() && path[k] == x;
        }
    }
    assert(stack[0] == frame);
}

/// When the walk has looked at the next successor of the vertex on top of
/// its stack, and that one is marked, the walk stays in order: in a graph
/// without cycle a marked successor cannot be on the stack.
pub proof fn lemma_sort_skip<T>(
    graph: GraphView<T>,
    order: Seq<usize>,
    stack: Seq<Frame>,
    moved: Frame,
)
    requires
        sorting(graph, order, stack),
        stack.len() > 0,
        stack.last().next < stack.last().neighbours@.len(),
        (order.to_set() + vertices_of(stack).to_set()).contains(
            stack.last().neighbours@[stack.last().next as int],
        ),
        moved.vertex == stack.last().vertex,
        moved.neighbours@ == stack.last().neighbours@,
        moved.next == stack.last().next + 1,
    ensures
        sorting(graph, order, stack.update(stack.len() - 1, moved)),
        vertices_of(stack.update(stack.len() - 1, moved)) == vertices_of(stack),
{
    let edges = graph.edges;
    let top = stack.len() - 1;
    let after = stack.update(top, moved);
    let path = vertices_of(stack);
    let taken = stack[top].neighbours@[stack[top].next as int];
    assert(vertices_of(after) =~= path);
    assert(stack[top].neighbours@.to_set().contains(taken));
    assert(edges.contains((stack[top].vertex, taken)));
    assert forall|i: int| 0 <= i < after.len() - 1 implies #[trigger] holds_next(after, i) by {
        assert(holds_next(stack, i));
    }
    if acyclic(edges) {
        if path.to_set().contains(taken) {
            let from = choose|from: int| 0 <= from < path.len() && path[from] == taken;
            lemma_stack_walks(graph, order, stack, from);
            let part = path.skip(from);
            let round = part.push(taken);
            assert forall|i: int| 0 <= i < round.len() - 1 implies edges.contains(
                #[trigger] link(round, i),
            ) by {
                if i < part.len() - 1 {
                    assert(link(round, i) == link(part, i));
                } else {
                    assert(round[i] == stack[top].vertex);
                }
            }
            assert(is_walk(edges, round));
            assert(round[0] == round.last());
        }
        assert(order.contains(taken));
        assert forall|i: int, k: int|
            0 <= i < after.len() && 0 <= k < after[i].next && (i == after.len() - 1 || k
                < after[i].next - 1) implies order.contains(#[trigger] after[i].neighbours@[k]) by {
            if i < top {
                assert(order.contains(stack[i].neighbours@[k]));
            } else if k < stack[top].next {
                assert(order.contains(stack[top].neighbours@[k]));
            }
        }
    }
}

/// When the walk marks a new vertex, the next successor of the vertex on top
/// of its stack, and puts it on the stack, the walk stays in order.
pub proof fn lemma_sort_push<T>(
    graph: GraphView<T>,
    order: Seq<usize>,
    stack: Seq<Frame>,
    moved: Frame,
    opened: Frame,
)
    requires
        sorting(graph, order, stack),
        stack.len() > 0,
        stack.last().next < stack.last().neighbours@.len(),
        opened.vertex == stack.last().neighbours@[stack.last().next as int],
        !order.to_set().contains(opened.vertex),
        !vertices_of(stack).to_set().contains(opened.vertex),
        moved.vertex == stack.last().vertex,
        moved.neighbours@ == stack.last().neighbours@,
        moved.next == stack.last().next + 1,
        opened.next == 0,
        opened.neighbours@.to_set() == graph.successors(opened.vertex),
    ensures
        sorting(graph, order, stack.update(stack.len() - 1, moved).push(opened)),
        vertices_of(stack.update(stack.len() - 1, moved).push(opened)).to_set() == vertices_of(
            stack,
        ).to_set().insert(opened.vertex),
{
    let edges = graph.edges;
    let top = stack.len() - 1;
    let after = stack.update(top, moved).push(opened);
    let path = vertices_of(stack);
    assert(vertices_of(after) =~= path.push(opened.vertex));
    lemma_push_to_set(path, opened.vertex);
    assert forall|i: int| 0 <= i < after.len() implies (#[trigger] after[i]).neighbours@.to_set()
        == graph.successors(after[i].vertex) && after[i].next <= after[i].neighbours@.len() by {
        if i < top {
            assert(after[i] == stack[i]);
        } else if i == top {
            assert(stack[top].neighbours@.to_set() == graph.successors(stack[top].vertex));
        }
    }
    assert forall|i: int| 0 <= i < after.len() - 1 implies #[trigger] holds_next(after, i) by {
        if i < top {
            assert(holds_next(stack, i));
        }
    }
    if acyclic(edges) {
        assert forall|i: int, k: int|
            0 <= i < after.len() && 0 <= k < after[i].next && (i == after.len() - 1 || k
                < after[i].next - 1) implies order.contains(#[trigger] after[i].neighbours@[k]) by {
            if i < top {
                assert(order.contains(stack[i].neighbours@[k]));
            } else if i == top {
                assert(order.contains(stack[top].neighbours@[k]));
            }
        }
    }
}

/// When all successors of the vertex on top of the stack have been taken,
/// the vertex leaves the stack and is listed, and the walk stays in order.
pub proof fn lemma_sort_pop<T>(graph: GraphView<T>, order: Seq<usize>, stack: Seq<Frame>)
    requires
        sorting(graph, order, stack),
        stack.len() > 0,
        stack.last().next == stack.last().neighbours@.len(),
    ensures
        sorting(graph, order.push(stack.last().vertex), stack.drop_last()),
        order.push(stack.last().vertex).to_set() + vertices_of(stack.drop_last()).to_set()
            == order.to_set() + vertices_of(stack).to_set(),
{
    let edges = graph.edges;
    let top = stack.len() - 1;
    let vertex = stack[top].vertex;
    let listed = order.push(vertex);
    let lower = stack.drop_last();
    let path = vertices_of(stack);
    assert(path[top] == vertex);
    assert(path.to_set().contains(vertex));
    assert(vertices_of(lower) =~= path.drop_last());
    lemma_push_to_set(order, vertex);
    lemma_push_to_set(path.drop_last(), vertex);
    assert(path.drop_last().push(vertex) =~= path);
    assert(!path.drop_last().to_set().contains(vertex)) by {
        if path.drop_last().to_set().contains(vertex) {
            let k = choose|k: int| 0 <= k < path.drop_last().len() && path.drop_last()[k] == vertex;
            assert(path[k] == path[top]);
        }
    }
    assert(path.drop_last().no_duplicates()) by {
        assert forall|a: int, b: int|
            0 <= a < path.drop_last().len() && 0 <= b < path.drop_last().len() && a
                != b implies path.drop_last()[a] != path.drop_last()[b] by {
            assert(path[a] != path[b]);
        }
    }
    assert(listed.to_set() + vertices_of(lower).to_set() =~= order.to_set() + path.to_set());
    assert forall|i: int| 0 <= i < lower.len() - 1 implies #[trigger] holds_next(lower, i) by {
        assert(holds_next(stack, i));
    }
    if acyclic(edges) {
        assert forall|i: int, to: usize|
            0 <= i < listed.len() && #[trigger] edges.contains((listed[i], to)) implies listed.take(
            i,
        ).contains(to) by {
            if i < order.len() {
                assert(edges.contains((order[i], to)));
                assert(listed.take(i) =~= order.take(i));
            } else {
                assert(graph.successors(vertex).contains(to));
                assert(stack[top].neighbours@.to_set().contains(to));
                let k = choose|k: int|
                    0 <= k < stack[top].neighbours@.len() && stack[top].neighbours@[k] == to;
                assert(order.contains(stack[top].neighbours@[k]));
                assert(listed.take(i) =~= order);
            }
        }
        assert forall|i: int, k: int|
            0 <= i < lower.len() && 0 <= k < lower[i].next && (i == lower.len() - 1 || k
                < lower[i].next - 1) implies listed.contains(#[trigger] lower[i].neighbours@[k]) by {
            if k < stack[i].next - 1 {
                assert(order.contains(stack[i].neighbours@[k]));
                let at = choose|at: int|
                    0 <= at < order.len() && order[at] == stack[i].neighbours@[k];
                assert(listed[at] == order[at]);
            } else {
                assert(holds_next(stack, i));
                assert(listed[order.len() as int] == vertex);
            }
        }
    }
}

/// What the walk has marked: the vertices to avoid, which were marked
/// before it, those that it has listed, and those on its stack.
pub open spec fn marked_by(avoid: Set<usize>, fresh: Seq<usize>, stack: Seq<Frame>) -> Set<usize> {
    avoid + fresh.to_set() + vertices_of(stack).to_set()
}

/// The walk from `start`, with `avoid` marked before it, gathers what
/// `start` reaches afresh: each vertex that it has listed in `fresh` or holds
/// on `stack` is reached from `start` without touching `avoid`; every
/// successor of a vertex listed is marked, and so is every successor that a
/// vertex of the stack has taken; `start` is at the bottom of the stack, or,
/// the stack being empty, the last vertex listed.
pub open spec fn gathering<T>(
    graph: GraphView<T>,
    avoid: Set<usize>,
    start: usize,
    fresh: Seq<usize>,
    stack: Seq<Frame>,
) -> bool {
    &&& forall|x: usize| #[trigger]
        (fresh.to_set() + vertices_of(stack).to_set()).contains(x) ==> reaches_avoiding(
            graph.edges,
            avoid,
            start,
            x,
        )
    &&& forall|from: usize, to: usize|
        fresh.to_set().contains(from) && #[trigger] graph.edges.contains((from, to))
            ==> marked_by(avoid, fresh, stack).contains(to)
    &&& forall|i: int, k: int|
        0 <= i < stack.len() && 0 <= k < stack[i].next ==> marked_by(avoid, fresh, stack).contains(
            #[trigger] stack[i].neighbours@[k],
        )
    &&& forall|i: int|
        0 <= i < stack.len() ==> (#[trigger] stack[i]).neighbours@.to_set() == graph.successors(
            stack[i].vertex,
        ) && stack[i].next <= stack[i].neighbours@.len()
    &&& stack.len() > 0 ==> stack[0].vertex == start
    &&& stack.len() == 0 ==> fresh.len() > 0 && fresh.last() == start
}

/// A walk that has just marked its start and put it on the stack gathers.
pub proof fn lemma_gather_begin<T>(graph: GraphView<T>, avoid: Set<usize>, frame: Frame)
    requires
        !avoid.contains(frame.vertex),
        frame.next == 0,
        frame.neighbours@.to_set() == graph.successors(frame.vertex),
    ensures
        gathering(graph, avoid, frame.vertex, Seq::<usize>::empty(), seq![frame]),
{
    let stack = seq![frame];
    let path = vertices_of(stack);
    let fresh = Seq::<usize>::empty();
    assert(stack[0] == frame);
    assert(path =~= seq![frame.vertex]);
    lemma_reaches_itself(graph.edges, avoid, frame.vertex);
    assert forall|x: usize| #[trigger] (fresh.to_set() + path.to_set()).contains(x) implies x
        == frame.vertex by {
        if path.to_set().contains(x) {
            let k = choose|k: int| 0 <= k < path.len() && path[k] == x;
        }
    }
}

/// When the walk has looked at the next successor of the vertex on top of
/// its stack, and that one is marked, the walk still gathers.
pub proof fn lemma_gather_skip<T>(
    graph: GraphView<T>,
    avoid: Set<usize>,
    start: usize,
    fresh: Seq<usize>,
    stack: Seq<Frame>,
    moved: Frame,
)
    requires
        gathering(graph, avoid, start, fresh, stack),
        stack.len() > 0,
        stack.last().next < stack.last().neighbours@.len(),
        marked_by(avoid, fresh, stack).contains(stack.last().neighbours@[stack.last().next as int]),
        moved.vertex == stack.last().vertex,
        moved.neighbours@ == stack.last().neighbours@,
        moved.next == stack.last().next + 1,
    ensures
        gathering(graph, avoid, start, fresh, stack.update(stack.len() - 1, moved)),
{
    let top = stack.len() - 1;
    let after = stack.update(top, moved);
    assert(vertices_of(after) =~= vertices_of(stack));
    assert forall|i: int, k: int| 0 <= i < after.len() && 0 <= k < after[i].next implies marked_by(
        avoid,
        fresh,
        after,
    ).contains(#[trigger] after[i].neighbours@[k]) by {
        if i < top {
            assert(marked_by(avoid, fresh, stack).contains(stack[i].neighbours@[k]));
        } else if k < stack[top].next {
            assert(marked_by(avoid, fresh, stack).contains(stack[top].neighbours@[k]));
        }
    }
    assert forall|i: int| 0 <= i < after.len() implies (#[trigger] after[i]).neighbours@.to_set()
        == graph.successors(after[i].vertex) && after[i].next <= after[i].neighbours@.len() by {
        assert(stack[i].neighbours@.to_set() == graph.successors(stack[i].vertex));
    }
}

/// When the walk marks a new vertex, the next successor of the vertex on top
/// of its stack, and puts it on the stack, the walk still gathers.
pub proof fn lemma_gather_push<T>(
    graph: GraphView<T>,
    avoid: Set<usize>,
    start: usize,
    fresh: Seq<usize>,
    stack: Seq<Frame>,
    moved: Frame,
    opened: Frame,
)
    requires
        gathering(graph, avoid, start, fresh, stack),
        stack.len() > 0,
        stack.last().next < stack.last().neighbours@.len(),
        opened.vertex == stack.last().neighbours@[stack.last().next as int],
        !marked_by(avoid, fresh, stack).contains(opened.vertex),
        moved.vertex == stack.last().vertex,
        moved.neighbours@ == stack.last().neighbours@,
        moved.next == stack.last().next + 1,
        opened.next == 0,
        opened.neighbours@.to_set() == graph.successors(opened.vertex),
    ensures
        gathering(graph, avoid, start, fresh, stack.update(stack.len() - 1, moved).push(opened)),
{
    let edges = graph.edges;
    let top = stack.len() - 1;
    let after = stack.update(top, moved).push(opened);
    let path = vertices_of(stack);
    assert(vertices_of(after) =~= path.push(opened.vertex));
    lemma_push_to_set(path, opened.vertex);
    assert(marked_by(avoid, fresh, after) =~= marked_by(avoid, fresh, stack).insert(opened.vertex));
    assert(stack[top].neighbours@.to_set() == graph.successors(stack[top].vertex));
    assert(stack[top].neighbours@.to_set().contains(opened.vertex));
    assert(edges.contains((stack[top].vertex, opened.vertex)));
    assert(path[top] == stack[top].vertex);
    assert((fresh.to_set() + path.to_set()).contains(stack[top].vertex));
    lemma_reaches_onward(edges, avoid, start, stack[top].vertex, opened.vertex);
    assert forall|x: usize| #[trigger]
        (fresh.to_set() + vertices_of(after).to_set()).contains(x) implies reaches_avoiding(
        edges,
        avoid,
        start,
        x,
    ) by {
        if x != opened.vertex {
            assert((fresh.to_set() + path.to_set()).contains(x));
        }
    }
    assert forall|i: int, k: int| 0 <= i < after.len() && 0 <= k < after[i].next implies marked_by(
        avoid,
        fresh,
        after,
    ).contains(#[trigger] after[i].neighbours@[k]) by {
        if i < top {
            assert(marked_by(avoid, fresh, stack).contains(stack[i].neighbours@[k]));
        } else if i == top && k < stack[top].next {
            assert(marked_by(avoid, fresh, stack).contains(stack[top].neighbours@[k]));
        }
    }
    assert forall|i: int| 0 <= i < after.len() implies (#[trigger] after[i]).neighbours@.to_set()
        == graph.successors(after[i].vertex) && after[i].next <= after[i].neighbours@.len() by {
        if i <= top {
            assert(stack[i].neighbours@.to_set() == graph.successors(stack[i].vertex));
        }
    }
    assert(after[0].vertex == stack[0].vertex);
}

/// When all successors of the vertex on top of the stack have been taken,
/// the vertex leaves the stack and is listed, and the walk still gathers.
pub proof fn lemma_gather_pop<T>(
    graph: GraphView<T>,
    avoid: Set<usize>,
    start: usize,
    fresh: Seq<usize>,
    stack: Seq<Frame>,
)
    requires
        gathering(graph, avoid, start, fresh, stack),
        stack.len() > 0,
        stack.last().next == stack.last().neighbours@.len(),
    ensures
        gathering(graph, avoid, start, fresh.push(stack.last().vertex), stack.drop_last()),
{
    let edges = graph.edges;
    let top = stack.len() - 1;
    let vertex = stack[top].vertex;
    let listed = fresh.push(vertex);
    let lower = stack.drop_last();
    let path = vertices_of(stack);
    assert(vertices_of(lower) =~= path.drop_last());
    assert(path.drop_last().push(vertex) =~= path);
    lemma_push_to_set(fresh, vertex);
    lemma_push_to_set(path.drop_last(), vertex);
    assert(marked_by(avoid, listed, lower) =~= marked_by(avoid, fresh, stack));
    assert(listed.to_set() + vertices_of(lower).to_set() =~= fresh.to_set() + path.to_set());
    assert(stack[top].neighbours@.to_set() == graph.successors(vertex));
    assert forall|from: usize, to: usize|
        listed.to_set().contains(from) && #[trigger] edges.contains((from, to)) implies marked_by(
        avoid,
        listed,
        lower,
    ).contains(to) by {
        if from == vertex {
            assert(graph.successors(vertex).contains(to));
            let k = choose|k: int|
                0 <= k < stack[top].neighbours@.len() && stack[top].neighbours@[k] == to;
            assert(marked_by(avoid, fresh, stack).contains(stack[top].neighbours@[k]));
        }
    }
    assert forall|i: int, k: int| 0 <= i < lower.len() && 0 <= k < lower[i].next implies marked_by(
        avoid,
        listed,
        lower,
    ).contains(#[trigger] lower[i].neighbours@[k]) by {
        assert(marked_by(avoid, fresh, stack).contains(stack[i].neighbours@[k]));
    }
    assert forall|i: int| 0 <= i < lower.len() implies (#[trigger] lower[i]).neighbours@.to_set()
        == graph.successors(lower[i].vertex) && lower[i].next <= lower[i].neighbours@.len() by {
        assert(stack[i].neighbours@.to_set() == graph.successors(stack[i].vertex));
    }
    assert(listed.last() == vertex);
}

/// When the stack is empty, what the walk has listed is, each vertex of
/// it, what its start reaches afresh.
pub proof fn lemma_gather_done<T>(
    graph: GraphView<T>,
    avoid: Set<usize>,
    start: usize,
    fresh: Seq<usize>,
    stack: Seq<Frame>,
)
    requires
        gathering(graph, avoid, start, fresh, stack),
        stack.len() == 0,
    ensures
        fresh.to_set() == fresh_reach(graph.edges, avoid, start),
        fresh.last() == start,
{
    let edges = graph.edges;
    let set = fresh.to_set();
    assert(vertices_of(stack) =~= Seq::<usize>::empty());
    assert(vertices_of(stack).to_set() =~= Set::<usize>::empty());
    assert(marked_by(avoid, fresh, stack) =~= avoid + set);
    assert(closed_outside(edges, avoid, set));
    assert(set.contains(start)) by {
        assert(fresh[fresh.len() - 1] == start);
    }
    lemma_closed_holds_reach(edges, avoid, set, start);
    assert forall|x: usize| set.contains(x) implies fresh_reach(edges, avoid, start).contains(x) by {
        assert((fresh.to_set() + vertices_of(stack).to_set()).contains(x));
    }
    assert(set =~= fresh_reach(edges, avoid, start));
}

} // verus!
