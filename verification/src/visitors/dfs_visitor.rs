//! The depth-first walk.
use std::collections::HashSet;
use vstd::prelude::*;
use vstd::std_specs::hash::*;

use crate::collections::{lemma_push_to_set, lemma_unvisited_shrink};
use crate::graph::Graph;
use crate::graph_vertex::GraphVertex;
use crate::reach::{depth_first, follows_at, fresh_reach, joins, reaches_avoiding};
use crate::visitors::depth::{
    frame_holds, lemma_remaining_less, lemma_walk_advance, lemma_walk_begin, lemma_walk_pop,
    lemma_walk_push, remaining, shut, walking, Frame,
};
use crate::visitors::graph_visitor::{accepts, applied, extends, GraphVisitor, WalkOrder};

verus! {

broadcast use vstd::std_specs::hash::group_hash_axioms;

/// Helper for storing state between dfs runs in graph.
pub struct DfsVisitor<'a, T> {
    visited: HashSet<usize>,
    graph: &'a Graph<T>,
}

impl<'a, T> DfsVisitor<'a, T> {
    /// The vertices passed are vertices of the graph.
    #[verifier::type_invariant]
    spec fn inv(self) -> bool {
        self.visited@.subset_of(self.graph@.ids())
    }

    /// Creates new visitor for given graph
    pub fn new(graph: &'a Graph<T>) -> (visitor: Self)
        ensures
            visitor.graph() == graph,
            visitor.visited() == Set::<usize>::empty(),
    {
        Self { visited: HashSet::new(), graph }
    }

    /// Walks depth first from `v` through the vertices outside `visited`:
    /// marks each vertex it comes to, applies `f` to it, appends it to `trace`
    /// and then goes on to its successors, one after the other. So each
    /// vertex is followed at once by all that it reaches afresh, and each but
    /// `v` is entered along an edge from the last vertex before it whose run
    /// still holds it.
    ///
    /// The vertices whose successors are being gone through are kept on a
    /// stack of the walk's own, so that a deep graph costs memory and no
    /// depth of calls.
    fn dfs_impl<F: FnMut(&GraphVertex<T>)>(
        graph: &Graph<T>,
        visited: &mut HashSet<usize>,
        v: usize,
        f: &mut F,
        trace: &mut Vec<usize>,
    )
        requires
            graph@.contains_vertex(v),
            old(visited)@.subset_of(graph@.ids()),
            accepts(*old(f), graph@),
        ensures
            *final(f) == *old(f),
            extends(final(trace)@, old(trace)@),
            ({
                let block = final(trace)@.skip(old(trace)@.len() as int);
                &&& applied(*old(f), graph@, block)
                &&& block.no_duplicates()
                &&& block.to_set() == fresh_reach(graph@.edges, old(visited)@, v)
                &&& final(visited)@ == old(visited)@ + block.to_set()
                &&& block.len() > 0 ==> block[0] == v
                &&& old(visited)@.contains(v) ==> block.len() == 0
                &&& depth_first(graph@.edges, old(visited)@, block)
            }),
            final(visited)@.subset_of(graph@.ids()),
    {
        let ghost edges = graph@.edges;
        let ghost avoid = visited@;
        let ghost base = trace@.len() as int;
        if visited.contains(&v) {
            proof {
                assert(trace@.skip(base) =~= Seq::<usize>::empty());
                assert(fresh_reach(edges, avoid, v) =~= Set::<usize>::empty()) by {
                    assert forall|to: usize| !reaches_avoiding(edges, avoid, v, to) by {
                        if reaches_avoiding(edges, avoid, v, to) {
                            let path = choose|path: Seq<usize>| joins(edges, avoid, path, v, to);
                            assert(!avoid.contains(path[0]));
                        }
                    }
                }
                assert(trace@.skip(base).to_set() =~= Set::<usize>::empty());
                assert(visited@ =~= avoid + trace@.skip(base).to_set());
                assert(trace@.take(base) =~= trace@);
            }
            return ;
        }
        proof {
            use_type_invariant(graph);
            graph.lemma_well_formed();
        }
        visited.insert(v);
        trace.push(v);
        f(graph.get_vertex(v).unwrap());
        let mut stack: Vec<Frame> = Vec::new();
        stack.push(Frame { vertex: v, neighbours: graph.successors(v), next: 0 });
        let ghost mut places: Seq<int> = seq![0int];
        proof {
            assert(trace@.skip(base) =~= seq![v]);
            assert(trace@.take(base) =~= old(trace)@);
            assert(seq![v].to_set() =~= Set::<usize>::empty().insert(v)) by {
                assert(seq![v][0] == v);
            }
            assert(visited@ =~= avoid + trace@.skip(base).to_set());
            lemma_walk_begin(graph@, avoid, stack@[0]);
            assert(stack@ =~= seq![stack@[0]]);
        }
        while stack.len() > 0
            invariant
                edges == graph@.edges,
                graph@.well_formed(),
                base == old(trace)@.len(),
                avoid == old(visited)@,
                !avoid.contains(v),
                accepts(*f, graph@),
                *f == *old(f),
                applied(*f, graph@, trace@.skip(base)),
                extends(trace@, old(trace)@),
                trace@.len() > base,
                trace@[base] == v,
                visited@ == avoid + trace@.skip(base).to_set(),
                visited@.subset_of(graph@.ids()),
                walking(graph@, avoid, trace@.skip(base), stack@, places),
                stack@.len() > 0 ==> places[0] == 0,
                stack@.len() == 0 ==> trace@.skip(base).to_set() == fresh_reach(edges, avoid, v),
            decreases graph@.ids().difference(visited@).len(), remaining(stack@),
        {
            let ghost block = trace@.skip(base);
            let ghost before = stack@;
            let ghost top = before.len() - 1;
            let frame = stack.pop().unwrap();
            proof {
                assert(stack@ =~= before.drop_last());
                assert(0 <= places[top] < block.len());
                assert(frame_holds(graph@, avoid + block.to_set(), before[top]));
            }
            if frame.next < frame.neighbours.len() {
                let next = frame.neighbours[frame.next];
                let moved = Frame {
                    vertex: frame.vertex,
                    neighbours: frame.neighbours,
                    next: frame.next + 1,
                };
                stack.push(moved);
                proof {
                    assert(stack@ =~= before.update(top, moved));
                    assert(before[top].neighbours@.to_set().contains(next));
                    assert(edges.contains((before[top].vertex, next)));
                    lemma_remaining_less(before, moved);
                }
                if !visited.contains(&next) {
                    let ghost seen = visited@;
                    visited.insert(next);
                    trace.push(next);
                    f(graph.get_vertex(next).unwrap());
                    let opened = Frame { vertex: next, neighbours: graph.successors(next), next: 0 };
                    proof {
                        let grown = trace@.skip(base);
                        assert(grown =~= block.push(next));
                        assert(trace@.take(base) =~= old(trace)@) by {
                            assert(trace@.take(base) =~= trace@.drop_last().take(base));
                        }
                        lemma_push_to_set(block, next);
                        lemma_unvisited_shrink(graph@.ids(), seen, visited@, next);
                        lemma_walk_push(graph@, avoid, block, before, places, opened);
                        lemma_walk_advance(
                            graph@,
                            avoid,
                            grown,
                            before.push(opened),
                            places.push(block.len() as int),
                            top,
                            moved,
                        );
                        assert(before.push(opened).update(top, moved) =~= before.update(
                            top,
                            moved,
                        ).push(opened));
                        assert(places.push(block.len() as int)[0] == places[0]);
                        places = places.push(block.len() as int);
                        assert(visited@ =~= avoid + grown.to_set());
                    }
                    stack.push(opened);
                } else {
                    proof {
                        lemma_walk_advance(graph@, avoid, block, before, places, top, moved);
                    }
                }
            } else {
                proof {
                    lemma_walk_pop(graph@, avoid, block, before, places);
                    if before.len() == 1 {
                        assert(places.last() == 0);
                        assert(block.subrange(0, block.len() as int) =~= block);
                        assert(block.take(0) =~= Seq::<usize>::empty());
                        assert(shut(avoid, block, 0) =~= avoid);
                        assert(block[0] == trace@[base]);
                    } else {
                        assert(places.drop_last()[0] == places[0]);
                    }
                    places = places.drop_last();
                }
            }
        }
        proof {
            let block = trace@.skip(base);
            assert(block[0] == trace@[base]);
            assert forall|at: int| 0 <= at < block.len() implies #[trigger] follows_at(
                edges,
                avoid,
                block,
                at,
            ) by {
                assert(!places.contains(at));
            }
        }
    }
}

impl<'a, T> GraphVisitor<T> for DfsVisitor<'a, T> {
    closed spec fn graph(&self) -> &Graph<T> {
        self.graph
    }

    closed spec fn visited(&self) -> Set<usize> {
        self.visited@
    }

    open spec fn walk_order() -> WalkOrder {
        |edges: Set<(usize, usize)>, avoid: Set<usize>, block: Seq<usize>|
            depth_first(edges, avoid, block)
    }

    /// Walks depth first: each vertex passed is followed at once by all that
    /// it reaches afresh, and each but the first is a successor of the last
    /// vertex before it whose run still holds it.
    fn visit<F: FnMut(&GraphVertex<T>)>(&mut self, vertex: usize, f: &mut F) -> (block: Vec<usize>)
        ensures
            depth_first(old(self).graph()@.edges, old(self).visited(), block@),
    {
        proof {
            use_type_invariant(&*self);
        }
        let mut visited = HashSet::new();
        std::mem::swap(&mut visited, &mut self.visited);
        let mut block: Vec<usize> = Vec::new();
        Self::dfs_impl(self.graph, &mut visited, vertex, f, &mut block);
        self.visited = visited;
        proof {
            assert(block@.skip(0) =~= block@);
        }
        block
    }

    fn clear(&mut self) {
        proof {
            use_type_invariant(&*self);
        }
        let mut fresh: HashSet<usize> = HashSet::new();
        std::mem::swap(&mut fresh, &mut self.visited);
    }

    fn get_graph(&self) -> (graph: &Graph<T>) {
        self.graph
    }
}

} // verus!
