//! What every kind of walk offers, and the walk over a whole graph.
use vstd::prelude::*;

use crate::collections::{ascending, lemma_same_items, set_to_vec, sort_ascending};
use crate::graph::{Graph, GraphView};
use crate::graph_vertex::GraphVertex;
use crate::reach::{
    acyclic, fresh_reach, is_topological, joins, lemma_reach_inside, lemma_reaches_itself,
};
use crate::visitors::topological_sort::TopologicalSort;
use crate::visitors::visit_order::VisitOrder;

verus! {

/// The callback `f` may be applied to every vertex of `graph`.
pub open spec fn accepts<T, F: FnMut(&GraphVertex<T>)>(f: F, graph: GraphView<T>) -> bool {
    forall|id: usize| #[trigger]
        graph.contains_vertex(id) ==> call_requires(
            f,
            (&GraphVertex { id, value: graph.values[id] },),
        )
}

/// The callback `f` has been applied to each of the vertices `block` of
/// `graph`: what it promises of such a call holds for each of them.
pub open spec fn applied<T, F: FnMut(&GraphVertex<T>)>(
    f: F,
    graph: GraphView<T>,
    block: Seq<usize>,
) -> bool {
    forall|i: int|
        0 <= i < block.len() ==> call_ensures(
            f,
            (&GraphVertex { id: #[trigger] block[i], value: graph.values[block[i]] },),
            (),
        )
}

/// `after` is `before` with something appended.
pub open spec fn extends(after: Seq<usize>, before: Seq<usize>) -> bool {
    before.len() <= after.len() && after.take(before.len() as int) == before
}

/// `starts` is a sequence of start vertices that `visit_order` allows for a
/// graph with these vertices and edges: it lists each vertex once; in
/// ascending order where that is asked for; and, where a topological order is
/// asked for and the graph has no cycle, with every edge leading forward.
pub open spec fn is_start_order(
    ids: Set<usize>,
    edges: Set<(usize, usize)>,
    visit_order: VisitOrder,
    starts: Seq<usize>,
) -> bool {
    &&& starts.no_duplicates()
    &&& starts.to_set() == ids
    &&& visit_order == VisitOrder::NumbersAscending ==> ascending(starts)
    &&& visit_order == VisitOrder::TopologicalSort && acyclic(edges) ==> is_topological(
        edges,
        starts,
    )
}

/// The start vertices of a walk over the whole of `graph`, in the order that
/// `visit_order` asks for.
pub fn start_vertices<T>(graph: &Graph<T>, visit_order: VisitOrder) -> (starts: Vec<usize>)
    ensures
        is_start_order(graph@.ids(), graph@.edges, visit_order, starts@),
{
    match visit_order {
        VisitOrder::Undefined => set_to_vec(&graph.get_vertices_ids()),
        VisitOrder::NumbersAscending => {
            let mut starts = set_to_vec(&graph.get_vertices_ids());
            let ghost unsorted = starts@;
            sort_ascending(&mut starts);
            proof {
                lemma_same_items(unsorted, starts@);
            }
            starts
        },
        VisitOrder::TopologicalSort => TopologicalSort::new(graph).create_order(),
    }
}

/// An order among the vertices that one walk passes: given the edges of the
/// graph, the vertices passed before and the vertices of the walk in order,
/// whether the walk may pass them so.
pub type WalkOrder = spec_fn(Set<(usize, usize)>, Set<usize>, Seq<usize>) -> bool;

/// `block` is what a walk from `start` passes, the vertices `passed` having
/// been passed before: each once, the vertices that `start` reaches without
/// touching one of those, with `start` first, in the order `order`.
pub open spec fn is_walk_from(
    edges: Set<(usize, usize)>,
    order: WalkOrder,
    passed: Seq<usize>,
    start: usize,
    block: Seq<usize>,
) -> bool {
    &&& block.no_duplicates()
    &&& block.to_set() == fresh_reach(edges, passed.to_set(), start)
    &&& block.len() > 0 ==> block[0] == start
    &&& order(edges, passed.to_set(), block)
}

/// `trace` is what walks from the vertices `starts`, one after the other,
/// pass: the walk from the last of `starts` passes the end of `trace`, the
/// walks before it what stands before that.
pub open spec fn chained(
    edges: Set<(usize, usize)>,
    order: WalkOrder,
    starts: Seq<usize>,
    trace: Seq<usize>,
) -> bool
    decreases starts.len(),
{
    if starts.len() == 0 {
        trace.len() == 0
    } else {
        exists|cut: int|
            0 <= cut <= trace.len() && chained(edges, order, starts.drop_last(), trace.take(cut))
                && #[trigger] is_walk_from(
                edges,
                order,
                trace.take(cut),
                starts.last(),
                trace.skip(cut),
            )
    }
}

/// A way of walking a graph from a start vertex that remembers, from one walk
/// to the next, which vertices it has passed.
pub trait GraphVisitor<T> {
    /// The graph that the visitor walks.
    spec fn graph(&self) -> &Graph<T>;

    /// The vertices passed since the visitor was made or cleared.
    spec fn visited(&self) -> Set<usize>;

    /// The order that this kind of visitor keeps among the vertices that one
    /// walk passes: whether, in a graph with these edges, the vertices in the
    /// set having been passed before, the walk may pass those of the sequence
    /// in this order.
    spec fn walk_order() -> WalkOrder;

    /// Walks from `vertex` through the vertices not passed before, applies
    /// `f` to each vertex it comes to, and returns them in the order in which
    /// `f` was applied. They are, each once, the vertices that `vertex`
    /// reaches without touching a vertex passed before; `vertex` comes first.
    /// Where `vertex` was passed before, nothing happens.
    fn visit<F: FnMut(&GraphVertex<T>)>(&mut self, vertex: usize, f: &mut F) -> (block: Vec<usize>)
        requires
            old(self).graph()@.contains_vertex(vertex),
            accepts(*old(f), old(self).graph()@),
        ensures
            final(self).graph() == old(self).graph(),
            accepts(*final(f), old(self).graph()@),
            applied(*old(f), old(self).graph()@, block@),
            *final(f) == *old(f),
            block@.no_duplicates(),
            block@.to_set() == fresh_reach(
                old(self).graph()@.edges,
                old(self).visited(),
                vertex,
            ),
            final(self).visited() == old(self).visited() + block@.to_set(),
            block@.len() > 0 ==> block@[0] == vertex,
            old(self).visited().contains(vertex) ==> block@.len() == 0,
            (Self::walk_order())(old(self).graph()@.edges, old(self).visited(), block@),
    ;

    /// Forgets which vertices were passed.
    fn clear(&mut self)
        ensures
            final(self).graph() == old(self).graph(),
            final(self).visited() == Set::<usize>::empty(),
    ;

    /// The graph that the visitor walks.
    fn get_graph(&self) -> (graph: &Graph<T>)
        ensures
            graph == self.graph(),
    ;

    /// Forgets which vertices were passed, then walks from each vertex of the
    /// graph in turn, in the order of start vertices that `visit_order` asks
    /// for. Each vertex of the graph is passed once: `f` is applied to it
    /// once, and it occurs once in what is returned, which lists the vertices
    /// in the order in which `f` was applied.
    fn visit_all<F: FnMut(&GraphVertex<T>)>(&mut self, visit_order: VisitOrder, f: F) -> (trace:
        Vec<usize>)
        requires
            accepts(f, old(self).graph()@),
        ensures
            final(self).graph() == old(self).graph(),
            final(self).visited() == old(self).graph()@.ids(),
            applied(f, old(self).graph()@, trace@),
            trace@.no_duplicates(),
            trace@.to_set() == old(self).graph()@.ids(),
            trace@.len() == old(self).graph()@.ids().len(),
            exists|starts: Seq<usize>| #[trigger]
                is_start_order(
                    old(self).graph()@.ids(),
                    old(self).graph()@.edges,
                    visit_order,
                    starts,
                ) && chained(old(self).graph()@.edges, Self::walk_order(), starts, trace@),
    {
        let mut callback = f;
        self.clear();
        let held = self.get_graph();
        proof {
            use_type_invariant(held);
            held.lemma_well_formed();
        }
        let starts = start_vertices(held, visit_order);
        let ghost graph = self.graph();
        let ghost edges = graph@.edges;

        let mut trace: Vec<usize> = Vec::new();
        let mut i: usize = 0;
        proof {
            assert(trace@.to_set() =~= Set::<usize>::empty());
            assert(starts@.take(0) =~= Seq::<usize>::empty());
        }
        while i < starts.len()
            invariant
                i <= starts.len(),
                graph == old(self).graph(),
                self.graph() == graph,
                edges == graph@.edges,
                starts@.to_set() == graph@.ids(),
                callback == f,
                accepts(f, graph@),
                applied(f, graph@, trace@),
                trace@.no_duplicates(),
                trace@.to_set() == self.visited(),
                chained(edges, Self::walk_order(), starts@.take(i as int), trace@),
                graph@.well_formed(),
                self.visited().subset_of(graph@.ids()),
                forall|k: int| 0 <= k < i ==> self.visited().contains(#[trigger] starts[k]),
            decreases starts.len() - i,
        {
            let start = starts[i];
            let ghost before = self.visited();
            let ghost listed = trace@;
            proof {
                assert(starts@.to_set().contains(start));
            }
            let mut block = self.visit(start, &mut callback);
            proof {
                assert forall|x: usize| block@.to_set().contains(x) implies !before.contains(x) by {
                    let path = choose|path: Seq<usize>| joins(edges, before, path, start, x);
                    assert(!before.contains(path[path.len() - 1]));
                }
                assert forall|a: int, b: int|
                    0 <= a < listed.len() && 0 <= b < block@.len() implies listed[a]
                    != block@[b] by {
                    assert(listed.to_set().contains(listed[a]));
                    assert(block@.to_set().contains(block@[b]));
                }
                vstd::seq_lib::lemma_no_dup_in_concat(listed, block@);
                vstd::seq_lib::seq_to_set_distributes_over_add(listed, block@);
                if !before.contains(start) {
                    lemma_reaches_itself(edges, before, start);
                }
                lemma_reach_inside(edges, before, graph@.ids(), start);
                let longer = listed + block@;
                let begun = starts@.take(i as int + 1);
                assert(begun.drop_last() =~= starts@.take(i as int));
                assert(begun.last() == start);
                assert(longer.take(listed.len() as int) =~= listed);
                assert(longer.skip(listed.len() as int) =~= block@);
                assert(is_walk_from(edges, Self::walk_order(), listed, start, block@));
                assert(chained(edges, Self::walk_order(), begun, longer));
            }
            trace.append(&mut block);
            i += 1;
        }
        proof {
            assert(starts@.take(starts.len() as int) =~= starts@);
            trace@.unique_seq_to_set();
            assert(self.visited() =~= graph@.ids()) by {
                assert forall|x: usize| graph@.ids().contains(x) implies self.visited().contains(
                    x,
                ) by {
                    assert(starts@.to_set().contains(x));
                    let k = choose|k: int| 0 <= k < starts.len() && starts[k] == x;
                    assert(self.visited().contains(starts[k]));
                }
            }
        }
        trace
    }
}

} // verus!
