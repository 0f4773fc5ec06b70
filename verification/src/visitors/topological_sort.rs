//! The vertices of a graph in an order that follows its edges.
use std::collections::HashSet;
use vstd::prelude::*;
use vstd::std_specs::hash::*;

use crate::collections::{lemma_push_to_set, lemma_unvisited_shrink, set_to_vec};
use crate::graph::Graph;
use crate::reach::{acyclic, fresh_reach, is_topological, joins, reaches_avoiding};
use crate::visitors::depth::{lemma_remaining_drop, lemma_remaining_less, remaining, Frame};
use crate::visitors::finish::{
    gathering, lemma_gather_begin, lemma_gather_done, lemma_gather_pop, lemma_gather_push,
    lemma_gather_skip, lemma_sort_begin, lemma_sort_pop, lemma_sort_push, lemma_sort_skip,
    marked_by, sorting, successors_first, vertices_of,
};
use crate::visitors::graph_visitor::extends;

verus! {

broadcast use vstd::std_specs::hash::group_hash_axioms;

/// Computes an order of the vertices of a graph in which, where the graph has
/// no cycle, every edge leads from an earlier vertex to a later one.
pub struct TopologicalSort<'a, T> {
    graph: &'a Graph<T>,
    visited: HashSet<usize>,
    order: Vec<usize>,
}

impl<'a, T> TopologicalSort<'a, T> {
    /// Nothing is marked or put in order before `create_order` begins.
    #[verifier::type_invariant]
    spec fn inv(self) -> bool {
        self.visited@ == Set::<usize>::empty() && self.order@ == Seq::<usize>::empty()
    }

    /// The graph whose vertices are put in order.
    pub closed spec fn graph(self) -> &'a Graph<T> {
        self.graph
    }

    /// Prepares to put the vertices of `graph` in order.
    pub fn new(graph: &'a Graph<T>) -> (sort: Self)
        ensures
            sort.graph() == graph,
    {
        Self { graph, visited: HashSet::new(), order: Vec::new() }
    }

    /// Visits what `v` leads to and is not marked yet, and appends each vertex
    /// to `order` when all its successors have been dealt with. The vertices
    /// whose successors are being dealt with are kept on a stack of the
    /// walk's own.
    ///
    /// Where `v` is marked already, nothing changes. Else what is appended
    /// is, each vertex once, what `v` reaches without touching a vertex marked
    /// before, and `v` comes last.
    fn dfs(graph: &Graph<T>, visited: &mut HashSet<usize>, order: &mut Vec<usize>, v: usize)
        requires
            graph@.contains_vertex(v),
            old(visited)@.subset_of(graph@.ids()),
            old(order)@.no_duplicates(),
            old(visited)@ == old(order)@.to_set(),
            acyclic(graph@.edges) ==> successors_first(graph@.edges, old(order)@),
        ensures
            extends(final(order)@, old(order)@),
            final(visited)@.subset_of(graph@.ids()),
            final(order)@.no_duplicates(),
            final(visited)@ == final(order)@.to_set(),
            final(visited)@.contains(v),
            acyclic(graph@.edges) ==> successors_first(graph@.edges, final(order)@),
            old(visited)@.contains(v) ==> final(order)@ == old(order)@ && final(visited)@ == old(
                visited,
            )@,
            final(order)@.skip(old(order)@.len() as int).to_set() == fresh_reach(
                graph@.edges,
                old(visited)@,
                v,
            ),
            !old(visited)@.contains(v) ==> final(order)@.last() == v,
    {
        let ghost edges = graph@.edges;
        let ghost avoid = visited@;
        let ghost base = order@.len() as int;
        if visited.contains(&v) {
            proof {
                assert(order@.take(base) =~= order@);
                assert(order@.skip(base) =~= Seq::<usize>::empty());
                assert(order@.skip(base).to_set() =~= Set::<usize>::empty());
                assert forall|to: usize| !reaches_avoiding(edges, avoid, v, to) by {
                    if reaches_avoiding(edges, avoid, v, to) {
                        let path = choose|path: Seq<usize>| joins(edges, avoid, path, v, to);
                        assert(!avoid.contains(path[0]));
                    }
                }
                assert(fresh_reach(edges, avoid, v) =~= Set::<usize>::empty());
            }
            return ;
        }
        proof {
            use_type_invariant(graph);
            graph.lemma_well_formed();
        }
        let ghost marked = visited@;
        visited.insert(v);
        let mut stack: Vec<Frame> = Vec::new();
        stack.push(Frame { vertex: v, neighbours: graph.successors(v), next: 0 });
        proof {
            lemma_sort_begin(graph@, order@, stack@[0]);
            lemma_gather_begin(graph@, avoid, stack@[0]);
            assert(stack@ =~= seq![stack@[0]]);
            assert(order@.take(order@.len() as int) =~= order@);
            assert(order@.skip(base) =~= Seq::<usize>::empty());
            assert(order@.skip(base).to_set() =~= Set::<usize>::empty());
            assert(visited@ =~= order@.to_set() + vertices_of(stack@).to_set());
        }
        while stack.len() > 0
            invariant
                edges == graph@.edges,
                graph@.well_formed(),
                base == old(order)@.len(),
                avoid == old(visited)@,
                !avoid.contains(v),
                order@.to_set() == avoid + order@.skip(base).to_set(),
                gathering(graph@, avoid, v, order@.skip(base), stack@),
                extends(order@, old(order)@),
                visited@.subset_of(graph@.ids()),
                visited@ == order@.to_set() + vertices_of(stack@).to_set(),
                visited@.contains(v),
                sorting(graph@, order@, stack@),
            decreases graph@.ids().difference(visited@).len(), remaining(stack@),
        {
            let ghost before = stack@;
            let ghost listed = order@;
            let ghost top = before.len() - 1;
            let frame = stack.pop().unwrap();
            proof {
                assert(stack@ =~= before.drop_last());
                assert(before[top].neighbours@.to_set() == graph@.successors(before[top].vertex));
            }
            if frame.next < frame.neighbours.len() {
                let next = frame.neighbours[frame.next];
                let moved = Frame {
                    vertex: frame.vertex,
                    neighbours: frame.neighbours,
                    next: frame.next + 1,
                };
                stack.push(moved);
                proof {
                    assert(stack@ =~= before.update(top, moved));
                    assert(before[top].neighbours@.to_set().contains(next));
                    assert(edges.contains((before[top].vertex, next)));
                    lemma_remaining_less(before, moved);
                }
                if !visited.contains(&next) {
                    let ghost seen = visited@;
                    visited.insert(next);
                    let opened = Frame { vertex: next, neighbours: graph.successors(next), next: 0 };
                    proof {
                        lemma_unvisited_shrink(graph@.ids(), seen, visited@, next);
                        lemma_sort_push(graph@, listed, before, moved, opened);
                        assert(marked_by(avoid, listed.skip(base), before) =~= seen);
                        lemma_gather_push(graph@, avoid, v, listed.skip(base), before, moved, opened);
                    }
                    stack.push(opened);
                    proof {
                        assert(visited@ =~= order@.to_set() + vertices_of(stack@).to_set());
                    }
                } else {
                    proof {
                        lemma_sort_skip(graph@, listed, before, moved);
                        assert(marked_by(avoid, listed.skip(base), before) =~= visited@);
                        lemma_gather_skip(graph@, avoid, v, listed.skip(base), before, moved);
                    }
                }
            } else {
                order.push(frame.vertex);
                proof {
                    lemma_sort_pop(graph@, listed, before);
                    lemma_gather_pop(graph@, avoid, v, listed.skip(base), before);
                    lemma_remaining_drop(before);
                    assert(order@.take(base) =~= listed.take(base));
                    assert(order@.skip(base) =~= listed.skip(base).push(frame.vertex));
                    lemma_push_to_set(listed, frame.vertex);
                    lemma_push_to_set(listed.skip(base), frame.vertex);
                    assert(order@.to_set() =~= avoid + order@.skip(base).to_set());
                }
            }
        }
        proof {
            assert(vertices_of(stack@) =~= Seq::<usize>::empty());
            assert(vertices_of(stack@).to_set() =~= Set::<usize>::empty());
            assert(visited@ =~= order@.to_set());
            lemma_gather_done(graph@, avoid, v, order@.skip(base), stack@);
            assert(order@.last() == order@.skip(base).last());
        }
    }

    /// The vertices of the graph, each once. Where the graph has no cycle,
    /// no vertex comes before one of its predecessors.
    pub fn create_order(self) -> (order: Vec<usize>)
        ensures
            order@.no_duplicates(),
            order@.to_set() == self.graph()@.ids(),
            acyclic(self.graph()@.edges) ==> is_topological(self.graph()@.edges, order@),
    {
        proof {
            use_type_invariant(&self);
        }
        let graph = self.graph;
        let mut visited = self.visited;
        let mut finished = self.order;
        let ghost edges = graph@.edges;
        let ids = set_to_vec(&graph.get_vertices_ids());
        let mut i: usize = 0;
        proof {
            assert(finished@.to_set() =~= Set::<usize>::empty());
        }
        while i < ids.len()
            invariant
                i <= ids.len(),
                edges == graph@.edges,
                ids@.to_set() == graph@.ids(),
                visited@.subset_of(graph@.ids()),
                finished@.no_duplicates(),
                visited@ == finished@.to_set(),
                acyclic(edges) ==> successors_first(edges, finished@),
                forall|k: int| 0 <= k < i ==> visited@.contains(#[trigger] ids[k]),
            decreases ids.len() - i,
        {
            let ghost seen = visited@;
            proof {
                assert(ids@.to_set().contains(ids[i as int]));
            }
            Self::dfs(graph, &mut visited, &mut finished, ids[i]);
            i += 1;
        }
        proof {
            assert(finished@.to_set() =~= graph@.ids()) by {
                assert forall|x: usize| graph@.ids().contains(x) implies visited@.contains(x) by {
                    assert(ids@.to_set().contains(x));
                    let k = choose|k: int| 0 <= k < ids.len() && ids[k] == x;
                    assert(visited@.contains(ids[k]));
                }
            }
        }
        let ghost postorder = finished@;
        let mut order: Vec<usize> = Vec::new();
        while finished.len() > 0
            invariant
                finished@.len() + order@.len() == postorder.len(),
                finished@ == postorder.take(finished@.len() as int),
                forall|k: int|
                    0 <= k < order@.len() ==> order@[k] == postorder[postorder.len() - 1 - k],
            decreases finished.len(),
        {
            let last = finished.pop().unwrap();
            order.push(last);
        }
        proof {
            let n = postorder.len() as int;
            assert forall|a: int, b: int|
                0 <= a < order@.len() && 0 <= b < order@.len() && a != b implies order@[a]
                != order@[b] by {
                assert(postorder[n - 1 - a] != postorder[n - 1 - b]);
            }
            assert(order@.to_set() =~= postorder.to_set()) by {
                assert forall|x: usize| order@.to_set().contains(x) implies postorder.to_set().contains(
                    x,
                ) by {
                    let k = choose|k: int| 0 <= k < order@.len() && order@[k] == x;
                    assert(postorder[n - 1 - k] == x);
                }
                assert forall|x: usize| postorder.to_set().contains(x) implies order@.to_set().contains(
                    x,
                ) by {
                    let k = choose|k: int| 0 <= k < postorder.len() && postorder[k] == x;
                    assert(order@[n - 1 - k] == x);
                }
            }
            if acyclic(edges) {
                assert forall|a: int, b: int|
                    0 <= a < order@.len() && 0 <= b < order@.len() && #[trigger] edges.contains(
                        (order@[a], order@[b]),
                    ) implies a < b by {
                    let at = n - 1 - a;
                    assert(edges.contains((postorder[at], order@[b])));
                    assert(postorder.take(at).contains(order@[b]));
                    let k = choose|k: int|
                        0 <= k < postorder.take(at).len() && postorder.take(at)[k] == order@[b];
                    assert(postorder[k] == postorder[n - 1 - b]);
                }
            }
        }
        order
    }
}

} // verus!
