//! The breadth-first walk.
use std::collections::HashSet;
use std::collections::VecDeque;
use vstd::prelude::*;
use vstd::std_specs::hash::*;

use crate::collections::{lemma_drop_first_to_set, lemma_push_to_set, lemma_unvisited_shrink};
use crate::graph::Graph;
use crate::graph_vertex::GraphVertex;
use crate::reach::{
    breadth_first, closed_outside, fresh_reach, joins, lemma_closed_holds_reach,
    lemma_reaches_itself, lemma_reaches_onward, reaches_avoiding,
};
use crate::visitors::layers::{
    found_in_order, layered, lemma_found_done, lemma_found_pop, lemma_found_push,
    lemma_layered_advance, lemma_layered_done, lemma_layered_pop, lemma_layered_push,
    lemma_layered_start,
};
use crate::visitors::graph_visitor::{accepts, applied, extends, GraphVisitor, WalkOrder};

verus! {

broadcast use vstd::std_specs::hash::group_hash_axioms;

/// Helper for storing state between bfs runs in graph.
pub struct BfsVisitor<'a, T> {
    visited: HashSet<usize>,
    graph: &'a Graph<T>,
}

impl<'a, T> BfsVisitor<'a, T> {
    /// The vertices passed are vertices of the graph.
    #[verifier::type_invariant]
    spec fn inv(self) -> bool {
        self.visited@.subset_of(self.graph@.ids())
    }

    /// Creates new visitor for given graph
    pub fn new(graph: &'a Graph<T>) -> (visitor: Self)
        ensures
            visitor.graph() == graph,
            visitor.visited() == Set::<usize>::empty(),
    {
        Self { visited: HashSet::new(), graph }
    }

    /// Walks breadth first from `v` through the vertices outside `visited`.
    ///
    /// A vertex is marked when it enters the queue. When it leaves the queue,
    /// `f` is applied to it, it is appended to `trace`, and its successors that
    /// are not marked yet enter the queue.
    fn bfs_impl<F: FnMut(&GraphVertex<T>)>(
        graph: &Graph<T>,
        visited: &mut HashSet<usize>,
        v: usize,
        f: &mut F,
        trace: &mut Vec<usize>,
    )
        requires
            graph@.contains_vertex(v),
            old(visited)@.subset_of(graph@.ids()),
            accepts(*old(f), graph@),
        ensures
            *final(f) == *old(f),
            extends(final(trace)@, old(trace)@),
            ({
                let block = final(trace)@.skip(old(trace)@.len() as int);
                &&& applied(*old(f), graph@, block)
                &&& block.no_duplicates()
                &&& block.to_set() == fresh_reach(graph@.edges, old(visited)@, v)
                &&& final(visited)@ == old(visited)@ + block.to_set()
                &&& block.len() > 0 ==> block[0] == v
                &&& old(visited)@.contains(v) ==> block.len() == 0
                &&& breadth_first(graph@.edges, old(visited)@, block)
            }),
            final(visited)@.subset_of(graph@.ids()),
    {
        let ghost edges = graph@.edges;
        let ghost avoid = visited@;
        let ghost base = trace@.len() as int;
        let ghost mut level: Map<usize, nat> = Map::empty();
        let ghost mut depth: nat = 0;
        let ghost mut finder: Map<usize, int> = Map::empty();
        proof {
            use_type_invariant(graph);
            graph.lemma_well_formed();
        }
        let mut vertex_queue: VecDeque<usize> = VecDeque::new();
        if !visited.contains(&v) {
            vertex_queue.push_back(v);
            visited.insert(v);
            proof {
                lemma_reaches_itself(edges, avoid, v);
                assert(vertex_queue@ =~= seq![v]);
                assert(seq![v].to_set() =~= Set::<usize>::empty().insert(v)) by {
                    assert(seq![v][0] == v);
                }
            }
        }
        proof {
            assert(trace@.skip(base) =~= Seq::<usize>::empty());
            assert(trace@.take(base) =~= trace@);
            assert(visited@ =~= avoid + trace@.skip(base).to_set() + vertex_queue@.to_set());
            lemma_layered_start(edges, avoid, v);
            if !avoid.contains(v) {
                level = level.insert(v, 0);
            } else {
                assert(vertex_queue@ =~= Seq::<usize>::empty());
            }
        }
        while vertex_queue.len() > 0
            invariant
                edges == graph@.edges,
                graph@.well_formed(),
                base == old(trace)@.len(),
                avoid == old(visited)@,
                graph@.contains_vertex(v),
                accepts(*f, graph@),
                *f == *old(f),
                applied(*f, graph@, trace@.skip(base)),
                extends(trace@, old(trace)@),
                visited@.subset_of(graph@.ids()),
                trace@.skip(base).no_duplicates(),
                vertex_queue@.no_duplicates(),
                trace@.skip(base).to_set().disjoint(vertex_queue@.to_set()),
                visited@ == avoid + trace@.skip(base).to_set() + vertex_queue@.to_set(),
                forall|x: usize| #[trigger]
                    trace@.skip(base).to_set().contains(x) ==> !avoid.contains(x)
                        && reaches_avoiding(edges, avoid, v, x),
                forall|x: usize| #[trigger]
                    vertex_queue@.to_set().contains(x) ==> !avoid.contains(x) && reaches_avoiding(
                        edges,
                        avoid,
                        v,
                        x,
                    ),
                forall|from: usize, to: usize|
                    trace@.skip(base).to_set().contains(from) && #[trigger] edges.contains(
                        (from, to),
                    ) ==> visited@.contains(to),
                trace@.len() > base ==> trace@[base] == v,
                trace@.len() == base && vertex_queue@.len() > 0 ==> vertex_queue@[0] == v,
                !avoid.contains(v) ==> trace@.skip(base).to_set().contains(v)
                    || vertex_queue@.to_set().contains(v),
                layered(edges, avoid, v, level, trace@.skip(base), vertex_queue@, depth),
                vertex_queue@.len() > 0 ==> depth == level[vertex_queue@[0]],
                avoid.contains(v) ==> vertex_queue@.len() == 0 && trace@.len() == base,
                found_in_order(edges, trace@.skip(base), vertex_queue@, finder),
            decreases graph@.ids().difference(trace@.skip(base).to_set()).len(),
        {
            let ghost queue_before = vertex_queue@;
            let ghost block_before = trace@.skip(base);
            let current = vertex_queue.pop_front().unwrap();
            proof {
                lemma_drop_first_to_set(queue_before);
                assert(vertex_queue@ =~= queue_before.drop_first());
                assert(queue_before.to_set().contains(current));
            }
            f(graph.get_vertex(current).unwrap());
            trace.push(current);
            let neighbours = graph.successors(current);
            proof {
                let block = trace@.skip(base);
                assert(block =~= block_before.push(current));
                assert(trace@.take(base) =~= old(trace)@) by {
                    assert(trace@.take(base) =~= trace@.drop_last().take(base));
                }
                lemma_push_to_set(block_before, current);
                lemma_layered_pop(edges, avoid, v, level, block_before, queue_before, depth);
                lemma_found_pop(edges, block_before, queue_before, finder);
                lemma_unvisited_shrink(
                    graph@.ids(),
                    block_before.to_set(),
                    block.to_set(),
                    current,
                );
                assert(visited@ =~= avoid + block.to_set() + vertex_queue@.to_set());
                if block_before.len() == 0 {
                    assert(trace@[base] == block[0]);
                } else {
                    assert(trace@[base] == block_before[0]);
                }
            }
            let mut i: usize = 0;
            while i < neighbours.len()
                invariant
                    i <= neighbours.len(),
                    edges == graph@.edges,
                    graph@.well_formed(),
                    avoid == old(visited)@,
                    neighbours@.to_set() == graph@.successors(current),
                    visited@.subset_of(graph@.ids()),
                    vertex_queue@.no_duplicates(),
                    trace@.skip(base).to_set().contains(current),
                    reaches_avoiding(edges, avoid, v, current),
                    trace@.skip(base).to_set().disjoint(vertex_queue@.to_set()),
                    visited@ == avoid + trace@.skip(base).to_set() + vertex_queue@.to_set(),
                    forall|x: usize| #[trigger]
                        vertex_queue@.to_set().contains(x) ==> !avoid.contains(x)
                            && reaches_avoiding(edges, avoid, v, x),
                    forall|from: usize, to: usize|
                        trace@.skip(base).to_set().contains(from) && from != current
                            && #[trigger] edges.contains((from, to)) ==> visited@.contains(to),
                    forall|k: int| 0 <= k < i ==> visited@.contains(#[trigger] neighbours[k]),
                    layered(edges, avoid, v, level, trace@.skip(base), vertex_queue@, depth),
                    level[current] == depth,
                    found_in_order(edges, trace@.skip(base), vertex_queue@, finder),
                    trace@.skip(base).len() > 0,
                    trace@.skip(base).last() == current,
                    trace@.skip(base).no_duplicates(),
                decreases neighbours.len() - i,
            {
                let next = neighbours[i];
                proof {
                    assert(neighbours@.to_set().contains(next));
                    assert(edges.contains((current, next)));
                }
                if !visited.contains(&next) {
                    let ghost queue_then = vertex_queue@;
                    proof {
                        let block = trace@.skip(base);
                        assert forall|q: int| 0 <= q < block.len() - 1 implies !edges.contains(
                            (#[trigger] block[q], next),
                        ) by {
                            assert(block.to_set().contains(block[q]));
                            assert(block[q] != block[block.len() - 1]);
                        }
                        assert(!(block + queue_then).contains(next)) by {
                            if (block + queue_then).contains(next) {
                                let k = choose|k: int|
                                    0 <= k < (block + queue_then).len() && (block + queue_then)[k]
                                        == next;
                                if k < block.len() {
                                    assert(block.to_set().contains(block[k]));
                                } else {
                                    assert(queue_then.to_set().contains(queue_then[k - block.len()]));
                                }
                            }
                        }
                    }
                    visited.insert(next);
                    vertex_queue.push_back(next);
                    proof {
                        lemma_reaches_onward(edges, avoid, v, current, next);
                        lemma_push_to_set(queue_then, next);
                        lemma_layered_push(
                            edges,
                            avoid,
                            v,
                            level,
                            trace@.skip(base),
                            queue_then,
                            depth,
                            current,
                            next,
                        );
                        level = level.insert(next, depth + 1);
                        lemma_found_push(edges, trace@.skip(base), queue_then, finder, next);
                        finder = finder.insert(next, trace@.skip(base).len() - 1);
                        assert(visited@ =~= avoid + trace@.skip(base).to_set()
                            + vertex_queue@.to_set());
                    }
                }
                i += 1;
            }
            proof {
                assert forall|from: usize, to: usize|
                    trace@.skip(base).to_set().contains(from) && #[trigger] edges.contains(
                        (from, to),
                    ) implies visited@.contains(to) by {
                    if from == current {
                        assert(graph@.successors(current).contains(to));
                        assert(neighbours@.to_set().contains(to));
                        let k = choose|k: int| 0 <= k < neighbours.len() && neighbours[k] == to;
                        assert(visited@.contains(neighbours[k]));
                    }
                }
                if vertex_queue@.len() > 0 {
                    lemma_layered_advance(
                        edges,
                        avoid,
                        v,
                        level,
                        trace@.skip(base),
                        vertex_queue@,
                        depth,
                        visited@,
                    );
                    depth = level[vertex_queue@[0]];
                }
            }
        }
        proof {
            let block = trace@.skip(base);
            let set = block.to_set();
            assert(vertex_queue@ =~= Seq::<usize>::empty());
            if block.len() > 0 {
                assert(block[0] == trace@[base]);
            }
            lemma_layered_done(edges, avoid, v, level, block, vertex_queue@, depth);
            lemma_found_done(edges, block, vertex_queue@, finder);
            assert(vertex_queue@.to_set() =~= Set::<usize>::empty());
            assert(visited@ =~= avoid + set);
            if avoid.contains(v) {
                assert forall|to: usize| !reaches_avoiding(edges, avoid, v, to) by {
                    if reaches_avoiding(edges, avoid, v, to) {
                        let path = choose|path: Seq<usize>| joins(edges, avoid, path, v, to);
                        assert(!avoid.contains(path[0]));
                    }
                }
                assert forall|x: usize| !set.contains(x) by {
                    if set.contains(x) {
                        assert(reaches_avoiding(edges, avoid, v, x));
                    }
                }
                assert(set =~= fresh_reach(edges, avoid, v));
            } else {
                assert(closed_outside(edges, avoid, set));
                lemma_closed_holds_reach(edges, avoid, set, v);
                assert(set =~= fresh_reach(edges, avoid, v));
            }
            if block.len() > 0 {
                assert(block[0] == trace@[base]);
            }
        }
    }
}

impl<'a, T> GraphVisitor<T> for BfsVisitor<'a, T> {
    closed spec fn graph(&self) -> &Graph<T> {
        self.graph
    }

    closed spec fn visited(&self) -> Set<usize> {
        self.visited@
    }

    open spec fn walk_order() -> WalkOrder {
        |edges: Set<(usize, usize)>, avoid: Set<usize>, block: Seq<usize>|
            breadth_first(edges, avoid, block)
    }

    /// Walks breadth first: no vertex is passed before one that is nearer
    /// to `vertex`, and the vertices after the first are passed in the order
    /// in which the vertices passed find them.
    fn visit<F: FnMut(&GraphVertex<T>)>(&mut self, vertex: usize, f: &mut F) -> (block: Vec<usize>)
        ensures
            breadth_first(old(self).graph()@.edges, old(self).visited(), block@),
    {
        proof {
            use_type_invariant(&*self);
        }
        let mut visited = HashSet::new();
        std::mem::swap(&mut visited, &mut self.visited);
        let mut block: Vec<usize> = Vec::new();
        Self::bfs_impl(self.graph, &mut visited, vertex, f, &mut block);
        self.visited = visited;
        proof {
            assert(block@.skip(0) =~= block@);
        }
        block
    }

    fn clear(&mut self) {
        proof {
            use_type_invariant(&*self);
        }
        let mut fresh: HashSet<usize> = HashSet::new();
        std::mem::swap(&mut fresh, &mut self.visited);
    }

    fn get_graph(&self) -> (graph: &Graph<T>) {
        self.graph
    }
}

} // verus!
