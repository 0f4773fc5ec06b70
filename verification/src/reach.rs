//! What it means to reach one vertex from another along edges, and the
//! orders in which walks pass the vertices they reach.
use vstd::prelude::*;

verus! {

/// The pair of neighbours in `path` at positions `i` and `i + 1`.
pub open spec fn link(path: Seq<usize>, i: int) -> (usize, usize) {
    (path[i], path[i + 1])
}

/// `path` walks along edges: it is not empty, and each vertex in it is
/// followed by one of its successors.
pub open spec fn is_walk(edges: Set<(usize, usize)>, path: Seq<usize>) -> bool {
    &&& path.len() > 0
    &&& forall|i: int| 0 <= i < path.len() - 1 ==> edges.contains(#[trigger] link(path, i))
}

/// No vertex of `path` lies in `avoid`.
pub open spec fn avoids(path: Seq<usize>, avoid: Set<usize>) -> bool {
    forall|i: int| 0 <= i < path.len() ==> !avoid.contains(#[trigger] path[i])
}

/// `path` leads from `from` to `to` along edges without touching `avoid`.
pub open spec fn joins(
    edges: Set<(usize, usize)>,
    avoid: Set<usize>,
    path: Seq<usize>,
    from: usize,
    to: usize,
) -> bool {
    &&& is_walk(edges, path)
    &&& avoids(path, avoid)
    &&& path[0] == from
    &&& path.last() == to
}

/// `to` can be reached from `from` along edges without touching `avoid`;
/// both ends count, so neither may lie in `avoid`.
pub open spec fn reaches_avoiding(
    edges: Set<(usize, usize)>,
    avoid: Set<usize>,
    from: usize,
    to: usize,
) -> bool {
    exists|path: Seq<usize>| joins(edges, avoid, path, from, to)
}

/// `to` can be reached from `from` along zero or more edges.
pub open spec fn reaches(edges: Set<(usize, usize)>, from: usize, to: usize) -> bool {
    reaches_avoiding(edges, Set::empty(), from, to)
}

/// What can be reached from `from` without touching `avoid`.
pub open spec fn fresh_reach(edges: Set<(usize, usize)>, avoid: Set<usize>, from: usize) -> Set<
    usize,
> {
    Set::new(|to: usize| reaches_avoiding(edges, avoid, from, to))
}

/// `to` can be reached from `from` along at most `steps` edges without
/// touching `avoid`.
pub open spec fn reaches_within(
    edges: Set<(usize, usize)>,
    avoid: Set<usize>,
    from: usize,
    to: usize,
    steps: nat,
) -> bool {
    exists|path: Seq<usize>| #[trigger] joins(edges, avoid, path, from, to) && path.len() <= steps + 1
}

/// No vertex in `order` is farther from the first one than a vertex after
/// it: what any vertex in it is reached within, from the first one and
/// without touching `avoid`, every vertex before it is reached within too.
pub open spec fn nearer_first(edges: Set<(usize, usize)>, avoid: Set<usize>, order: Seq<usize>) -> bool {
    forall|i: int, j: int, steps: nat|
        #![trigger order[i], reaches_within(edges, avoid, order[0], order[j], steps)]
        0 <= i <= j < order.len() && reaches_within(edges, avoid, order[0], order[j], steps)
            ==> reaches_within(edges, avoid, order[0], order[i], steps)
}

/// The vertex at place `i` of `order` is followed at once by all that it
/// reaches without touching `avoid` or a vertex before it in `order`: these,
/// with the vertex itself, are what stands at the places from `i` up to some
/// later place.
pub open spec fn follows_at(
    edges: Set<(usize, usize)>,
    avoid: Set<usize>,
    order: Seq<usize>,
    i: int,
) -> bool {
    exists|j: int|
        i < j <= order.len() && #[trigger] order.subrange(i, j).to_set() == fresh_reach(
            edges,
            avoid + order.take(i).to_set(),
            order[i],
        )
}

/// Each vertex in `order` is followed at once by all that it reaches
/// without touching `avoid` or a vertex before it.
pub open spec fn descendants_follow(
    edges: Set<(usize, usize)>,
    avoid: Set<usize>,
    order: Seq<usize>,
) -> bool {
    forall|i: int| 0 <= i < order.len() ==> #[trigger] follows_at(edges, avoid, order, i)
}

/// One of the vertices at the places of `order` up to `upto` has an edge to
/// the vertex at place `at`.
pub open spec fn found_upto(edges: Set<(usize, usize)>, order: Seq<usize>, at: int, upto: int) -> bool {
    exists|from: int| 0 <= from <= upto && #[trigger] edges.contains((order[from], order[at]))
}

/// The vertex at place `i` of `order` is found no later than the one at
/// place `j`: where a vertex of `order` has an edge to the second, that
/// vertex or one before it has an edge to the first.
pub open spec fn found_no_later(edges: Set<(usize, usize)>, order: Seq<usize>, i: int, j: int) -> bool {
    forall|from: int|
        0 <= from < order.len() && #[trigger] edges.contains((order[from], order[j]))
            ==> found_upto(edges, order, i, from)
}

/// The vertices of `order` after the first stand in the order in which the
/// vertices of `order` find them: the first vertex with an edge to one of them
/// stands no later than the first vertex with an edge to one that stands
/// after it.
pub open spec fn found_in_turn(edges: Set<(usize, usize)>, order: Seq<usize>) -> bool {
    forall|i: int, j: int| 0 < i < j < order.len() ==> #[trigger] found_no_later(edges, order, i, j)
}

/// The order of a breadth-first walk: nearer vertices first, and among the
/// vertices after the first those first that are found first.
pub open spec fn breadth_first(edges: Set<(usize, usize)>, avoid: Set<usize>, order: Seq<usize>) -> bool {
    nearer_first(edges, avoid, order) && found_in_turn(edges, order)
}

/// The run of the vertex at place `from` of `order` holds the vertex at place
/// `at`: the one reaches the other without touching `avoid` or a vertex that
/// stands before place `from`.
pub open spec fn run_holds(
    edges: Set<(usize, usize)>,
    avoid: Set<usize>,
    order: Seq<usize>,
    from: int,
    at: int,
) -> bool {
    fresh_reach(edges, avoid + order.take(from).to_set(), order[from]).contains(order[at])
}

/// The vertex at place `at` of `order` is entered along an edge from the last
/// vertex before it whose run holds it.
pub open spec fn entered_at(
    edges: Set<(usize, usize)>,
    avoid: Set<usize>,
    order: Seq<usize>,
    at: int,
) -> bool {
    exists|from: int|
        0 <= from < at && #[trigger] run_holds(edges, avoid, order, from, at) && edges.contains(
            (order[from], order[at]),
        ) && forall|between: int|
            from < between < at ==> !#[trigger] run_holds(edges, avoid, order, between, at)
}

/// Each vertex in `order` but the first is a successor of the last vertex
/// before it whose run holds it.
pub open spec fn enters_along_edges(
    edges: Set<(usize, usize)>,
    avoid: Set<usize>,
    order: Seq<usize>,
) -> bool {
    forall|at: int| 0 < at < order.len() ==> #[trigger] entered_at(edges, avoid, order, at)
}

/// The order of a depth-first walk: each vertex is followed at once by all
/// that it reaches afresh, and each vertex but the first is entered along an
/// edge from the last vertex before it whose run holds it.
pub open spec fn depth_first(edges: Set<(usize, usize)>, avoid: Set<usize>, order: Seq<usize>) -> bool {
    descendants_follow(edges, avoid, order) && enters_along_edges(edges, avoid, order)
}

/// `set` holds every successor of its members that lies outside `avoid`.
pub open spec fn closed_outside(edges: Set<(usize, usize)>, avoid: Set<usize>, set: Set<usize>) -> bool {
    forall|from: usize, to: usize|
        set.contains(from) && #[trigger] edges.contains((from, to)) && !avoid.contains(to)
            ==> set.contains(to)
}

/// No walk along at least one edge comes back to where it started.
pub open spec fn acyclic(edges: Set<(usize, usize)>) -> bool {
    forall|path: Seq<usize>| #[trigger] is_walk(edges, path) && path.len() > 1 ==> path[0] != path.last()
}

/// Every edge between two vertices listed in `order` leads from an earlier
/// place in it to a later one.
pub open spec fn is_topological(edges: Set<(usize, usize)>, order: Seq<usize>) -> bool {
    forall|i: int, j: int|
        0 <= i < order.len() && 0 <= j < order.len() && #[trigger] edges.contains(
            (order[i], order[j]),
        ) ==> i < j
}

/// A vertex outside `avoid` reaches itself.
pub proof fn lemma_reaches_itself(edges: Set<(usize, usize)>, avoid: Set<usize>, vertex: usize)
    requires
        !avoid.contains(vertex),
    ensures
        reaches_avoiding(edges, avoid, vertex, vertex),
{
    let path = seq![vertex];
    assert(joins(edges, avoid, path, vertex, vertex));
}

/// Reaching goes on along an edge whose end lies outside `avoid`.
pub proof fn lemma_reaches_onward(
    edges: Set<(usize, usize)>,
    avoid: Set<usize>,
    from: usize,
    mid: usize,
    to: usize,
)
    requires
        reaches_avoiding(edges, avoid, from, mid),
        edges.contains((mid, to)),
        !avoid.contains(to),
    ensures
        reaches_avoiding(edges, avoid, from, to),
{
    let path = choose|path: Seq<usize>| joins(edges, avoid, path, from, mid);
    let longer = path.push(to);
    assert forall|i: int| 0 <= i < longer.len() - 1 implies edges.contains(
        #[trigger] link(longer, i),
    ) by {
        if i < path.len() - 1 {
            assert(link(longer, i) == link(path, i));
        }
    }
    assert(joins(edges, avoid, longer, from, to));
}

/// To avoid less is easier.
pub proof fn lemma_reaches_avoiding_less(
    edges: Set<(usize, usize)>,
    more: Set<usize>,
    less: Set<usize>,
    from: usize,
    to: usize,
)
    requires
        less.subset_of(more),
        reaches_avoiding(edges, more, from, to),
    ensures
        reaches_avoiding(edges, less, from, to),
{
    let path = choose|path: Seq<usize>| joins(edges, more, path, from, to);
    assert(joins(edges, less, path, from, to));
}

/// A walk that starts inside a set closed outside `avoid`, and avoids
/// `avoid`, stays inside the set.
pub proof fn lemma_walk_stays_inside(
    edges: Set<(usize, usize)>,
    avoid: Set<usize>,
    set: Set<usize>,
    path: Seq<usize>,
    upto: int,
)
    requires
        is_walk(edges, path),
        avoids(path, avoid),
        closed_outside(edges, avoid, set),
        set.contains(path[0]),
        0 <= upto < path.len(),
    ensures
        set.contains(path[upto]),
    decreases upto,
{
    if upto > 0 {
        lemma_walk_stays_inside(edges, avoid, set, path, upto - 1);
        assert(edges.contains(link(path, upto - 1)));
    }
}

/// A set closed outside `avoid` holds all that its members reach without
/// touching `avoid`.
pub proof fn lemma_closed_holds_reach(
    edges: Set<(usize, usize)>,
    avoid: Set<usize>,
    set: Set<usize>,
    from: usize,
)
    requires
        closed_outside(edges, avoid, set),
        set.contains(from),
    ensures
        fresh_reach(edges, avoid, from).subset_of(set),
{
    assert forall|to: usize| fresh_reach(edges, avoid, from).contains(to) implies set.contains(
        to,
    ) by {
        let path = choose|path: Seq<usize>| joins(edges, avoid, path, from, to);
        lemma_walk_stays_inside(edges, avoid, set, path, path.len() - 1);
    }
}

/// What is reached within some number of steps is reached within more.
pub proof fn lemma_within_more(
    edges: Set<(usize, usize)>,
    avoid: Set<usize>,
    from: usize,
    to: usize,
    fewer: nat,
    more: nat,
)
    requires
        fewer <= more,
        reaches_within(edges, avoid, from, to, fewer),
    ensures
        reaches_within(edges, avoid, from, to, more),
        reaches_avoiding(edges, avoid, from, to),
{
    let path = choose|path: Seq<usize>| #[trigger]
        joins(edges, avoid, path, from, to) && path.len() <= fewer + 1;
    assert(joins(edges, avoid, path, from, to) && path.len() <= more + 1);
}

/// A vertex outside `avoid` is reached from itself within no step, and
/// nothing else is.
pub proof fn lemma_within_none(edges: Set<(usize, usize)>, avoid: Set<usize>, from: usize, to: usize)
    ensures
        reaches_within(edges, avoid, from, to, 0) <==> to == from && !avoid.contains(from),
{
    if to == from && !avoid.contains(from) {
        let path = seq![from];
        assert(joins(edges, avoid, path, from, from) && path.len() <= 0 + 1);
    }
    if reaches_within(edges, avoid, from, to, 0) {
        let path = choose|path: Seq<usize>| #[trigger]
            joins(edges, avoid, path, from, to) && path.len() <= 0 + 1;
        assert(path[0] == path.last());
        assert(!avoid.contains(path[0]));
    }
}

/// One edge more, to a vertex outside `avoid`, takes one step more.
pub proof fn lemma_within_onward(
    edges: Set<(usize, usize)>,
    avoid: Set<usize>,
    from: usize,
    mid: usize,
    to: usize,
    steps: nat,
)
    requires
        reaches_within(edges, avoid, from, mid, steps),
        edges.contains((mid, to)),
        !avoid.contains(to),
    ensures
        reaches_within(edges, avoid, from, to, steps + 1),
{
    let path = choose|path: Seq<usize>| #[trigger]
        joins(edges, avoid, path, from, mid) && path.len() <= steps + 1;
    let longer = path.push(to);
    assert forall|i: int| 0 <= i < longer.len() - 1 implies edges.contains(
        #[trigger] link(longer, i),
    ) by {
        if i < path.len() - 1 {
            assert(link(longer, i) == link(path, i));
        }
    }
    assert(joins(edges, avoid, longer, from, to) && longer.len() <= steps + 1 + 1);
}

/// What is reached within one step more, and not within fewer, is the
/// successor of something reached within one step fewer.
pub proof fn lemma_within_before(
    edges: Set<(usize, usize)>,
    avoid: Set<usize>,
    from: usize,
    to: usize,
    steps: nat,
) -> (mid: usize)
    requires
        reaches_within(edges, avoid, from, to, steps + 1),
        !reaches_within(edges, avoid, from, to, steps),
    ensures
        reaches_within(edges, avoid, from, mid, steps),
        edges.contains((mid, to)),
{
    let path = choose|path: Seq<usize>| #[trigger]
        joins(edges, avoid, path, from, to) && path.len() <= steps + 1 + 1;
    assert(path.len() == steps + 2) by {
        if path.len() <= steps + 1 {
            assert(joins(edges, avoid, path, from, to) && path.len() <= steps + 1);
        }
    }
    let shorter = path.drop_last();
    let mid = shorter.last();
    assert forall|i: int| 0 <= i < shorter.len() - 1 implies edges.contains(
        #[trigger] link(shorter, i),
    ) by {
        assert(link(shorter, i) == link(path, i));
    }
    assert forall|i: int| 0 <= i < shorter.len() implies !avoid.contains(#[trigger] shorter[i]) by {
        assert(shorter[i] == path[i]);
    }
    assert(joins(edges, avoid, shorter, from, mid) && shorter.len() <= steps + 1);
    assert(link(path, path.len() - 2) == (mid, to));
    mid
}

/// What follows a vertex in an order follows it still when more is appended
/// to the order.
pub proof fn lemma_follows_keep(
    edges: Set<(usize, usize)>,
    avoid: Set<usize>,
    head: Seq<usize>,
    tail: Seq<usize>,
    i: int,
)
    requires
        0 <= i < head.len(),
        follows_at(edges, avoid, head, i),
    ensures
        follows_at(edges, avoid, head + tail, i),
{
    let j = choose|j: int|
        i < j <= head.len() && #[trigger] head.subrange(i, j).to_set() == fresh_reach(
            edges,
            avoid + head.take(i).to_set(),
            head[i],
        );
    let all = head + tail;
    assert(all.subrange(i, j) =~= head.subrange(i, j));
    assert(all.take(i) =~= head.take(i));
}

/// From where a vertex was entered stays the same when more is appended to
/// the order.
pub proof fn lemma_entered_keep(
    edges: Set<(usize, usize)>,
    avoid: Set<usize>,
    head: Seq<usize>,
    tail: Seq<usize>,
    at: int,
)
    requires
        0 < at < head.len(),
        entered_at(edges, avoid, head, at),
    ensures
        entered_at(edges, avoid, head + tail, at),
{
    let all = head + tail;
    let from = choose|from: int|
        0 <= from < at && #[trigger] run_holds(edges, avoid, head, from, at) && edges.contains(
            (head[from], head[at]),
        ) && forall|between: int|
            from < between < at ==> !#[trigger] run_holds(edges, avoid, head, between, at);
    assert forall|q: int| 0 <= q < at implies run_holds(edges, avoid, all, q, at) == run_holds(
        edges,
        avoid,
        head,
        q,
        at,
    ) by {
        assert(all.take(q) =~= head.take(q));
    }
    assert(run_holds(edges, avoid, all, from, at));
    assert forall|between: int| from < between < at implies !#[trigger] run_holds(
        edges,
        avoid,
        all,
        between,
        at,
    ) by {
        assert(!run_holds(edges, avoid, head, between, at));
    }
}

/// Where `avoid` holds every successor of its members, as the vertices do
/// that walks have passed, what is reached without touching `avoid` is what
/// is reached at all and lies outside it.
pub proof fn lemma_reach_past_closed(
    edges: Set<(usize, usize)>,
    avoid: Set<usize>,
    from: usize,
    to: usize,
)
    requires
        closed_outside(edges, Set::empty(), avoid),
    ensures
        reaches_avoiding(edges, avoid, from, to) <==> reaches(edges, from, to) && !avoid.contains(
            to,
        ),
{
    let nothing = Set::<usize>::empty();
    if reaches_avoiding(edges, avoid, from, to) {
        lemma_reaches_avoiding_less(edges, avoid, nothing, from, to);
        let path = choose|path: Seq<usize>| joins(edges, avoid, path, from, to);
        assert(!avoid.contains(path[path.len() - 1]));
    }
    if reaches(edges, from, to) && !avoid.contains(to) {
        let path = choose|path: Seq<usize>| joins(edges, nothing, path, from, to);
        assert forall|i: int| 0 <= i < path.len() implies !avoid.contains(#[trigger] path[i]) by {
            if avoid.contains(path[i]) {
                let rest = path.skip(i);
                assert forall|k: int| 0 <= k < rest.len() - 1 implies edges.contains(
                    #[trigger] link(rest, k),
                ) by {
                    assert(link(rest, k) == link(path, i + k));
                }
                assert forall|k: int| 0 <= k < rest.len() implies !nothing.contains(
                    #[trigger] rest[k],
                ) by {}
                lemma_walk_stays_inside(edges, nothing, avoid, rest, rest.len() - 1);
                assert(rest[rest.len() - 1] == to);
            }
        }
        assert(joins(edges, avoid, path, from, to));
    }
}

/// With all that a vertex reaches outside it, a set that holds every
/// successor of its members is such a set still.
pub proof fn lemma_closed_grows(edges: Set<(usize, usize)>, avoid: Set<usize>, from: usize)
    requires
        closed_outside(edges, Set::empty(), avoid),
    ensures
        closed_outside(edges, Set::empty(), avoid + fresh_reach(edges, avoid, from)),
{
    let more = avoid + fresh_reach(edges, avoid, from);
    assert forall|a: usize, b: usize|
        more.contains(a) && #[trigger] edges.contains((a, b)) && !Set::<usize>::empty().contains(
            b,
        ) implies more.contains(b) by {
        if !avoid.contains(a) && !avoid.contains(b) {
            lemma_reaches_onward(edges, avoid, from, a, b);
        }
    }
}

/// In an order in which every edge leads forward, every walk along at least
/// one edge, through vertices that the order lists, leads forward: no vertex
/// stands before one from which it is reached.
pub proof fn lemma_topological_along_walk(
    edges: Set<(usize, usize)>,
    order: Seq<usize>,
    path: Seq<usize>,
    first: int,
    last: int,
)
    requires
        is_topological(edges, order),
        is_walk(edges, path),
        path.len() > 1,
        forall|k: int| 0 <= k < path.len() ==> order.contains(#[trigger] path[k]),
        0 <= first < order.len(),
        0 <= last < order.len(),
        order[first] == path[0],
        order[last] == path.last(),
    ensures
        first < last,
    decreases path.len(),
{
    let end = path.len() - 1;
    assert(edges.contains(link(path, end - 1)));
    if path.len() == 2 {
        assert(edges.contains((order[first], order[last])));
    } else {
        let shorter = path.drop_last();
        assert(order.contains(path[end - 1]));
        let mid = choose|mid: int| 0 <= mid < order.len() && order[mid] == path[end - 1];
        assert forall|i: int| 0 <= i < shorter.len() - 1 implies edges.contains(
            #[trigger] link(shorter, i),
        ) by {
            assert(link(shorter, i) == link(path, i));
        }
        assert forall|k: int| 0 <= k < shorter.len() implies order.contains(
            #[trigger] shorter[k],
        ) by {
            assert(shorter[k] == path[k]);
        }
        lemma_topological_along_walk(edges, order, shorter, first, mid);
        assert(edges.contains((order[mid], order[last])));
    }
}

/// Where every edge ends at a member of `ids`, all that a member reaches is
/// a member.
pub proof fn lemma_reach_inside(
    edges: Set<(usize, usize)>,
    avoid: Set<usize>,
    ids: Set<usize>,
    from: usize,
)
    requires
        ids.contains(from),
        forall|a: usize, b: usize| #[trigger] edges.contains((a, b)) ==> ids.contains(b),
    ensures
        fresh_reach(edges, avoid, from).subset_of(ids),
{
    assert(closed_outside(edges, avoid, ids));
    lemma_closed_holds_reach(edges, avoid, ids, from);
}

} // verus!
