//! The state of a breadth-first walk, and why each of its steps keeps the
//! nearer vertices first.
use vstd::prelude::*;

use crate::reach::{
    found_in_turn, found_no_later, found_upto, lemma_within_before, lemma_within_more, lemma_within_none,
    lemma_within_onward, nearer_first, reaches_within,
};
use crate::collections::{lemma_drop_first_to_set, lemma_push_to_set};

verus! {

/// For each member of `set`, `level` gives the least number of steps within
/// which it is reached from `start` without touching `avoid`.
pub open spec fn measured(
    edges: Set<(usize, usize)>,
    avoid: Set<usize>,
    start: usize,
    level: Map<usize, nat>,
    set: Set<usize>,
) -> bool {
    forall|x: usize| #[trigger]
        set.contains(x) ==> {
            &&& level.contains_key(x)
            &&& reaches_within(edges, avoid, start, x, level[x])
            &&& level[x] > 0 ==> !reaches_within(edges, avoid, start, x, (level[x] - 1) as nat)
        }
}

/// `set` holds all that is reached from `start` within `depth` steps.
pub open spec fn holds_within(
    edges: Set<(usize, usize)>,
    avoid: Set<usize>,
    start: usize,
    depth: nat,
    set: Set<usize>,
) -> bool {
    forall|y: usize| #[trigger] reaches_within(edges, avoid, start, y, depth) ==> set.contains(y)
}

/// The state of a breadth-first walk from `start`: `block` holds the
/// vertices that have left the queue and `queue` those in it, in the order in
/// which they entered; each has its distance from `start` as its level; no
/// level falls along `block` and then `queue`; those in `block` have level
/// `depth` at most, those in `queue` have `depth` or one more; and all that is
/// within `depth` steps of `start` is in one of the two.
pub open spec fn layered(
    edges: Set<(usize, usize)>,
    avoid: Set<usize>,
    start: usize,
    level: Map<usize, nat>,
    block: Seq<usize>,
    queue: Seq<usize>,
    depth: nat,
) -> bool {
    &&& measured(edges, avoid, start, level, block.to_set() + queue.to_set())
    &&& holds_within(edges, avoid, start, depth, block.to_set() + queue.to_set())
    &&& forall|i: int, j: int| 0 <= i <= j < block.len() ==> level[block[i]] <= level[block[j]]
    &&& forall|i: int| 0 <= i < block.len() ==> level[#[trigger] block[i]] <= depth
    &&& forall|i: int| 0 <= i < queue.len() ==> depth <= level[#[trigger] queue[i]] <= depth + 1
    &&& forall|i: int, j: int| 0 <= i <= j < queue.len() ==> level[queue[i]] <= level[queue[j]]
}

/// A walk that has not begun is layered: with its start in the queue, or
/// with nothing where the start is to be avoided.
pub proof fn lemma_layered_start(edges: Set<(usize, usize)>, avoid: Set<usize>, start: usize)
    ensures
        !avoid.contains(start) ==> layered(
            edges,
            avoid,
            start,
            Map::<usize, nat>::empty().insert(start, 0),
            Seq::<usize>::empty(),
            seq![start],
            0,
        ),
        avoid.contains(start) ==> layered(
            edges,
            avoid,
            start,
            Map::<usize, nat>::empty(),
            Seq::<usize>::empty(),
            Seq::<usize>::empty(),
            0,
        ),
{
    let none = Seq::<usize>::empty();
    assert forall|y: usize| true implies (reaches_within(edges, avoid, start, y, 0) <==> y == start
        && !avoid.contains(start)) by {
        lemma_within_none(edges, avoid, start, y);
    }
    if !avoid.contains(start) {
        let queue = seq![start];
        assert(queue[0] == start);
        assert(queue.to_set().contains(start));
        assert((none.to_set() + queue.to_set()).contains(start));
        assert forall|x: usize| (none.to_set() + queue.to_set()).contains(x) implies x == start by {
            if queue.to_set().contains(x) {
                let k = choose|k: int| 0 <= k < queue.len() && queue[k] == x;
            }
        }
    } else {
        assert forall|x: usize| !(none.to_set() + none.to_set()).contains(x) by {}
    }
}

/// When the first vertex of the queue leaves it for the block, the walk
/// stays layered.
pub proof fn lemma_layered_pop(
    edges: Set<(usize, usize)>,
    avoid: Set<usize>,
    start: usize,
    level: Map<usize, nat>,
    block: Seq<usize>,
    queue: Seq<usize>,
    depth: nat,
)
    requires
        layered(edges, avoid, start, level, block, queue, depth),
        queue.len() > 0,
        queue.no_duplicates(),
        depth == level[queue[0]],
    ensures
        layered(edges, avoid, start, level, block.push(queue[0]), queue.drop_first(), depth),
{
    let current = queue[0];
    let longer = block.push(current);
    let rest = queue.drop_first();
    lemma_push_to_set(block, current);
    lemma_drop_first_to_set(queue);
    assert(queue.to_set().contains(current));
    assert(longer.to_set() + rest.to_set() =~= block.to_set() + queue.to_set());
    assert forall|i: int, j: int| 0 <= i <= j < longer.len() implies level[longer[i]]
        <= level[longer[j]] by {
        if j < block.len() {
            assert(longer[i] == block[i] && longer[j] == block[j]);
        } else if i < block.len() {
            assert(longer[i] == block[i]);
        }
    }
    assert forall|i: int| 0 <= i < longer.len() implies level[#[trigger] longer[i]] <= depth by {
        if i < block.len() {
            assert(longer[i] == block[i]);
        }
    }
    assert forall|i: int| 0 <= i < rest.len() implies depth <= level[#[trigger] rest[i]] <= depth
        + 1 by {
        assert(rest[i] == queue[i + 1]);
    }
    assert forall|i: int, j: int| 0 <= i <= j < rest.len() implies level[rest[i]]
        <= level[rest[j]] by {
        assert(rest[i] == queue[i + 1] && rest[j] == queue[j + 1]);
    }
}

/// When a successor of a vertex of the block at the present depth enters
/// the queue, not having been in block or queue, with a level one above the
/// depth, the walk stays layered.
pub proof fn lemma_layered_push(
    edges: Set<(usize, usize)>,
    avoid: Set<usize>,
    start: usize,
    level: Map<usize, nat>,
    block: Seq<usize>,
    queue: Seq<usize>,
    depth: nat,
    current: usize,
    next: usize,
)
    requires
        layered(edges, avoid, start, level, block, queue, depth),
        block.to_set().contains(current),
        level[current] == depth,
        edges.contains((current, next)),
        !avoid.contains(next),
        !block.to_set().contains(next),
        !queue.to_set().contains(next),
    ensures
        layered(
            edges,
            avoid,
            start,
            level.insert(next, depth + 1),
            block,
            queue.push(next),
            depth,
        ),
{
    let risen = level.insert(next, depth + 1);
    let longer = queue.push(next);
    let before = block.to_set() + queue.to_set();
    let after = block.to_set() + longer.to_set();
    lemma_push_to_set(queue, next);
    assert(after =~= before.insert(next));
    assert(before.contains(current));
    lemma_within_onward(edges, avoid, start, current, next, depth);
    assert(!reaches_within(edges, avoid, start, next, depth));
    assert forall|x: usize| #[trigger] after.contains(x) implies {
        &&& risen.contains_key(x)
        &&& reaches_within(edges, avoid, start, x, risen[x])
        &&& risen[x] > 0 ==> !reaches_within(edges, avoid, start, x, (risen[x] - 1) as nat)
    } by {
        if x != next {
            assert(before.contains(x));
        }
    }
    assert forall|i: int, j: int| 0 <= i <= j < block.len() implies risen[block[i]]
        <= risen[block[j]] by {
        assert(block.to_set().contains(block[i]) && block.to_set().contains(block[j]));
    }
    assert forall|i: int| 0 <= i < block.len() implies risen[#[trigger] block[i]] <= depth by {
        assert(block.to_set().contains(block[i]));
    }
    assert forall|i: int| 0 <= i < longer.len() implies depth <= risen[#[trigger] longer[i]]
        <= depth + 1 by {
        if i < queue.len() {
            assert(queue.to_set().contains(queue[i]));
            assert(longer[i] == queue[i]);
        }
    }
    assert forall|i: int, j: int| 0 <= i <= j < longer.len() implies risen[longer[i]]
        <= risen[longer[j]] by {
        if i < queue.len() {
            assert(queue.to_set().contains(queue[i]));
            assert(longer[i] == queue[i]);
        }
        if j < queue.len() {
            assert(queue.to_set().contains(queue[j]));
            assert(longer[j] == queue[j]);
        }
    }
}

/// When every successor of every vertex of the block has been marked, the
/// walk is layered at the level of the first vertex of the queue.
pub proof fn lemma_layered_advance(
    edges: Set<(usize, usize)>,
    avoid: Set<usize>,
    start: usize,
    level: Map<usize, nat>,
    block: Seq<usize>,
    queue: Seq<usize>,
    depth: nat,
    visited: Set<usize>,
)
    requires
        layered(edges, avoid, start, level, block, queue, depth),
        queue.len() > 0,
        visited == avoid + block.to_set() + queue.to_set(),
        forall|from: usize, to: usize|
            block.to_set().contains(from) && #[trigger] edges.contains((from, to))
                ==> visited.contains(to),
    ensures
        layered(edges, avoid, start, level, block, queue, level[queue[0]]),
{
    let deeper = level[queue[0]];
    let set = block.to_set() + queue.to_set();
    assert(depth <= level[queue[0]] <= depth + 1);
    if deeper == depth + 1 {
        assert forall|y: usize| #[trigger]
            reaches_within(edges, avoid, start, y, deeper) implies set.contains(y) by {
            if !reaches_within(edges, avoid, start, y, depth) {
                let mid = lemma_within_before(edges, avoid, start, y, depth);
                assert(set.contains(mid));
                if queue.to_set().contains(mid) {
                    let k = choose|k: int| 0 <= k < queue.len() && queue[k] == mid;
                    assert(level[queue[0]] <= level[queue[k]]);
                    lemma_within_more(edges, avoid, start, mid, depth, (level[mid] - 1) as nat);
                }
                assert(block.to_set().contains(mid));
                assert(visited.contains(y));
                lemma_within_more(edges, avoid, start, y, deeper, deeper);
                let path = choose|path: Seq<usize>|
                    crate::reach::joins(edges, avoid, path, start, y);
                assert(!avoid.contains(path[path.len() - 1]));
            }
        }
        assert forall|i: int| 0 <= i < queue.len() implies deeper <= level[#[trigger] queue[i]]
            <= deeper + 1 by {
            assert(level[queue[0]] <= level[queue[i]]);
        }
    }
}

/// The block of a layered walk whose queue is empty lists its vertices with
/// the nearer ones first.
pub proof fn lemma_layered_done(
    edges: Set<(usize, usize)>,
    avoid: Set<usize>,
    start: usize,
    level: Map<usize, nat>,
    block: Seq<usize>,
    queue: Seq<usize>,
    depth: nat,
)
    requires
        layered(edges, avoid, start, level, block, queue, depth),
        block.len() > 0 ==> block[0] == start,
    ensures
        nearer_first(edges, avoid, block),
{
    assert forall|i: int, j: int, steps: nat|
        #![trigger block[i], reaches_within(edges, avoid, block[0], block[j], steps)]
        0 <= i <= j < block.len() && reaches_within(
            edges,
            avoid,
            block[0],
            block[j],
            steps,
        ) implies reaches_within(edges, avoid, block[0], block[i], steps) by {
        let set = block.to_set() + queue.to_set();
        assert(block.to_set().contains(block[i]) && block.to_set().contains(block[j]));
        assert(set.contains(block[i]) && set.contains(block[j]));
        assert(level[block[i]] <= level[block[j]]);
        if steps < level[block[j]] {
            lemma_within_more(
                edges,
                avoid,
                start,
                block[j],
                steps,
                (level[block[j]] - 1) as nat,
            );
        }
        lemma_within_more(edges, avoid, start, block[i], level[block[i]], steps);
    }
}

/// Each vertex listed after the first, in `block` or after it in `queue`,
/// was found from the vertex of `block` at the place that `finder` gives for
/// it: that vertex has an edge to it and none before that vertex has; and
/// these places do not fall along `block` and then `queue`.
pub open spec fn found_in_order(
    edges: Set<(usize, usize)>,
    block: Seq<usize>,
    queue: Seq<usize>,
    finder: Map<usize, int>,
) -> bool {
    let all = block + queue;
    &&& forall|i: int|
        1 <= i < all.len() ==> {
            &&& finder.contains_key(#[trigger] all[i])
            &&& 0 <= finder[all[i]] < block.len()
            &&& edges.contains((block[finder[all[i]]], all[i]))
            &&& forall|q: int| 0 <= q < finder[all[i]] ==> !edges.contains((#[trigger] block[q], all[i]))
        }
    &&& forall|i: int, j: int| 1 <= i <= j < all.len() ==> finder[all[i]] <= finder[all[j]]
}

/// When the first vertex of the queue leaves it for the block, what was
/// found is found in order still.
pub proof fn lemma_found_pop(
    edges: Set<(usize, usize)>,
    block: Seq<usize>,
    queue: Seq<usize>,
    finder: Map<usize, int>,
)
    requires
        found_in_order(edges, block, queue, finder),
        queue.len() > 0,
    ensures
        found_in_order(edges, block.push(queue[0]), queue.drop_first(), finder),
{
    let all = block + queue;
    let longer = block.push(queue[0]);
    assert(longer + queue.drop_first() =~= all);
    assert forall|i: int| 1 <= i < all.len() implies {
        &&& finder.contains_key(#[trigger] all[i])
        &&& 0 <= finder[all[i]] < longer.len()
        &&& edges.contains((longer[finder[all[i]]], all[i]))
        &&& forall|q: int| 0 <= q < finder[all[i]] ==> !edges.contains((#[trigger] longer[q], all[i]))
    } by {
        assert(longer[finder[all[i]]] == block[finder[all[i]]]);
        assert forall|q: int| 0 <= q < finder[all[i]] implies !edges.contains(
            (#[trigger] longer[q], all[i]),
        ) by {
            assert(longer[q] == block[q]);
        }
    }
}

/// When a vertex that was listed nowhere enters the queue, found from the
/// last vertex of the block, to which no earlier vertex of the block has an
/// edge, what was found is found in order still.
pub proof fn lemma_found_push(
    edges: Set<(usize, usize)>,
    block: Seq<usize>,
    queue: Seq<usize>,
    finder: Map<usize, int>,
    next: usize,
)
    requires
        found_in_order(edges, block, queue, finder),
        block.len() > 0,
        edges.contains((block.last(), next)),
        !(block + queue).contains(next),
        forall|q: int| 0 <= q < block.len() - 1 ==> !edges.contains((#[trigger] block[q], next)),
    ensures
        found_in_order(edges, block, queue.push(next), finder.insert(next, block.len() - 1)),
{
    let all = block + queue;
    let grown = block + queue.push(next);
    let found = finder.insert(next, block.len() - 1);
    assert(grown =~= all.push(next));
    assert forall|i: int| 1 <= i < grown.len() implies {
        &&& found.contains_key(#[trigger] grown[i])
        &&& 0 <= found[grown[i]] < block.len()
        &&& edges.contains((block[found[grown[i]]], grown[i]))
        &&& forall|q: int| 0 <= q < found[grown[i]] ==> !edges.contains((#[trigger] block[q], grown[i]))
    } by {
        if i < all.len() {
            assert(grown[i] == all[i]);
            assert(all.contains(all[i]));
            assert(finder.contains_key(all[i]));
        }
    }
    assert forall|i: int, j: int| 1 <= i <= j < grown.len() implies found[grown[i]]
        <= found[grown[j]] by {
        if i < all.len() {
            assert(all.contains(all[i]));
            assert(finder.contains_key(all[i]) && finder[all[i]] < block.len());
        }
        if j < all.len() {
            assert(all.contains(all[j]));
            assert(finder[all[i]] <= finder[all[j]]);
        }
    }
}

/// When the queue is empty, the block lists the vertices after its first
/// in the order in which its vertices find them.
pub proof fn lemma_found_done(
    edges: Set<(usize, usize)>,
    block: Seq<usize>,
    queue: Seq<usize>,
    finder: Map<usize, int>,
)
    requires
        found_in_order(edges, block, queue, finder),
        queue.len() == 0,
    ensures
        found_in_turn(edges, block),
{
    assert(block + queue =~= block);
    assert forall|i: int, j: int| 0 < i < j < block.len() implies #[trigger] found_no_later(
        edges,
        block,
        i,
        j,
    ) by {
        assert forall|from: int|
            0 <= from < block.len() && #[trigger] edges.contains(
                (block[from], block[j]),
            ) implies found_upto(edges, block, i, from) by {
            let all = block + queue;
            assert(finder.contains_key(all[i]) && finder.contains_key(all[j]));
            assert(finder[all[i]] <= finder[all[j]]);
            if from < finder[block[j]] {
                assert(!edges.contains((block[from], all[j])));
            }
            assert(edges.contains((block[finder[block[i]]], block[i])));
        }
    }
}

} // verus!
