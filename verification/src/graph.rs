//! The graph itself: vertices with values, directed edges between them.
use std::collections::HashMap;
use std::collections::HashSet;
use vstd::prelude::*;
use vstd::std_specs::hash::*;
use vstd::string::*;

use crate::collections::{keys_to_vec, set_to_vec, vec_to_set};
use crate::decimal::{decimal, push_decimal};
use crate::graph_vertex::GraphVertex;
use crate::reach::{breadth_first, fresh_reach};
use crate::visitors::bfs_visitor::BfsVisitor;
use crate::visitors::graph_visitor::{accepts, applied, GraphVisitor};

verus! {

broadcast use vstd::std_specs::hash::group_hash_axioms;

/// The mathematical content of a graph: the value stored under each vertex
/// identifier, and the directed edges as a relation on identifiers.
///
/// A vertex without out-edges simply occurs in no pair of `edges` as a source,
/// so "no adjacency entry" and "an empty adjacency entry" are the same graph.
#[verifier::ext_equal]
pub struct GraphView<T> {
    pub values: Map<usize, T>,
    pub edges: Set<(usize, usize)>,
}

impl<T> GraphView<T> {
    /// The identifiers of the vertices.
    pub open spec fn ids(self) -> Set<usize> {
        self.values.dom()
    }

    /// The graph holds a vertex with the identifier `id`.
    pub open spec fn contains_vertex(self, id: usize) -> bool {
        self.values.contains_key(id)
    }

    /// The graph holds an edge that leads from `from` to `to`.
    pub open spec fn contains_edge(self, from: usize, to: usize) -> bool {
        self.edges.contains((from, to))
    }

    /// The direct successors of `id`.
    pub open spec fn successors(self, id: usize) -> Set<usize> {
        Set::new(|to: usize| self.edges.contains((id, to)))
    }

    /// Every edge joins two vertices of the graph, and there are finitely many
    /// vertices.
    pub open spec fn well_formed(self) -> bool {
        &&& self.values.dom().finite()
        &&& forall|from: usize, to: usize| #[trigger]
            self.edges.contains((from, to)) ==> self.values.contains_key(from)
                && self.values.contains_key(to)
    }

    /// The graph without vertices.
    pub open spec fn empty() -> Self {
        GraphView { values: Map::empty(), edges: Set::empty() }
    }

    /// The graph with `value` stored under `id`; the edges stay as they are.
    pub open spec fn with_vertex(self, id: usize, value: T) -> Self {
        GraphView { values: self.values.insert(id, value), edges: self.edges }
    }

    /// The graph without the vertex `id` and without every edge that starts or
    /// ends there.
    pub open spec fn without_vertex(self, id: usize) -> Self {
        GraphView {
            values: self.values.remove(id),
            edges: Set::new(
                |p: (usize, usize)| self.edges.contains(p) && p.0 != id && p.1 != id,
            ),
        }
    }

    /// The graph with an edge from `from` to `to`, which it may have held
    /// before.
    pub open spec fn with_edge(self, from: usize, to: usize) -> Self {
        GraphView { values: self.values, edges: self.edges.insert((from, to)) }
    }

    /// The graph without the edge from `from` to `to`.
    pub open spec fn without_edge(self, from: usize, to: usize) -> Self {
        GraphView { values: self.values, edges: self.edges.remove((from, to)) }
    }
}

/// A vertex from which no edge leads has the empty set of successors.
pub proof fn lemma_no_out_edges<T>(graph: GraphView<T>, id: usize)
    requires
        forall|to: usize| !#[trigger] graph.contains_edge(id, to),
    ensures
        graph.successors(id) == Set::<usize>::empty(),
{
    assert forall|to: usize| !graph.successors(id).contains(to) by {
        assert(!graph.contains_edge(id, to));
    }
    assert(graph.successors(id) =~= Set::<usize>::empty());
}

/// To add an edge a second time changes nothing.
pub proof fn lemma_add_edge_again<T>(graph: GraphView<T>, from: usize, to: usize)
    ensures
        graph.with_edge(from, to).with_edge(from, to) == graph.with_edge(from, to),
        graph.contains_edge(from, to) ==> graph.with_edge(from, to) == graph,
{
    assert(graph.with_edge(from, to).with_edge(from, to).edges =~= graph.with_edge(from, to).edges);
    if graph.contains_edge(from, to) {
        assert(graph.with_edge(from, to).edges =~= graph.edges);
    }
}

/// To store a value under an identifier leaves the edges as they are, also
/// where the identifier held a value before.
pub proof fn lemma_add_vertex_keeps_edges<T>(graph: GraphView<T>, id: usize, value: T)
    ensures
        graph.with_vertex(id, value).edges == graph.edges,
        graph.with_vertex(id, value).ids() == graph.ids().insert(id),
        graph.well_formed() ==> graph.with_vertex(id, value).well_formed(),
{
    assert(graph.with_vertex(id, value).ids() =~= graph.ids().insert(id));
}

/// Without a vertex, a graph whose edges join its vertices is such a graph
/// still: no edge is left that starts or ends at the vertex taken out.
pub proof fn lemma_remove_vertex_scrubs<T>(graph: GraphView<T>, id: usize)
    requires
        graph.well_formed(),
    ensures
        graph.without_vertex(id).well_formed(),
        forall|other: usize|
            !graph.without_vertex(id).contains_edge(id, other) && !graph.without_vertex(
                id,
            ).contains_edge(other, id),
        !graph.contains_vertex(id) ==> graph.without_vertex(id) == graph,
{
    let rest = graph.without_vertex(id);
    assert forall|from: usize, to: usize| #[trigger]
        rest.edges.contains((from, to)) implies rest.values.contains_key(from)
        && rest.values.contains_key(to) by {
        assert(graph.edges.contains((from, to)));
    }
    if !graph.contains_vertex(id) {
        assert(rest.values =~= graph.values);
        assert forall|p: (usize, usize)| graph.edges.contains(p) implies rest.edges.contains(p) by {
            assert(graph.edges.contains((p.0, p.1)));
        }
        assert(rest.edges =~= graph.edges);
    }
}

/// The failure of an operation that names a vertex the graph does not hold.
#[derive(Debug)]
pub struct VertexNotExistsError {
    /// The identifier that was looked for.
    pub vertex: usize,
}

impl VertexNotExistsError {
    /// What the failure says, as a text.
    pub open spec fn message(self) -> Seq<char> {
        "Vertex "@ + decimal(self.vertex as nat) + " not exists in graph"@
    }

    /// What the failure says: which vertex the graph does not hold.
    pub fn to_string(&self) -> (text: String)
        ensures
            text@ == self.message(),
    {
        let mut text = String::from_str("Vertex ");
        push_decimal(&mut text, self.vertex);
        text.append(" not exists in graph");
        text
    }
}

/// A directed graph whose vertices carry values of type `T`.
#[derive(Debug)]
pub struct Graph<T> {
    vertices: HashMap<usize, GraphVertex<T>>,
    edges: HashMap<usize, HashSet<usize>>,
}

/// The value that a table of vertices holds under each identifier.
spec fn values_of<T>(vertices: Map<usize, GraphVertex<T>>) -> Map<usize, T> {
    Map::new(|id: usize| vertices.contains_key(id), |id: usize| vertices[id].value)
}

/// The successors that an adjacency table lists for `from`: none where it
/// has no entry.
spec fn row_of(edges: Map<usize, HashSet<usize>>, from: usize) -> Set<usize> {
    if edges.contains_key(from) {
        edges[from]@
    } else {
        Set::empty()
    }
}

/// The edges that an adjacency table lists, as pairs of start and end.
spec fn relation_of(edges: Map<usize, HashSet<usize>>) -> Set<(usize, usize)> {
    Set::new(|p: (usize, usize)| row_of(edges, p.0).contains(p.1))
}

/// What the two tables of a graph satisfy at all times: each vertex is stored
/// under its own identifier, each adjacency entry belongs to a vertex, and each
/// successor listed is a vertex.
spec fn tables_agree<T>(
    vertices: Map<usize, GraphVertex<T>>,
    edges: Map<usize, HashSet<usize>>,
) -> bool {
    &&& forall|id: usize| #[trigger] vertices.contains_key(id) ==> vertices[id].id == id
    &&& forall|from: usize| #[trigger] edges.contains_key(from) ==> vertices.contains_key(from)
    &&& forall|from: usize, to: usize|
        edges.contains_key(from) && #[trigger] edges[from]@.contains(to) ==> vertices.contains_key(
            to,
        )
}

impl<T> View for Graph<T> {
    type V = GraphView<T>;

    closed spec fn view(&self) -> GraphView<T> {
        GraphView { values: values_of(self.vertices@), edges: relation_of(self.edges@) }
    }
}

impl<T> Graph<T> {
    /// What holds of every graph at all times: its tables agree.
    #[verifier::type_invariant]
    pub closed spec fn inv(self) -> bool {
        tables_agree(self.vertices@, self.edges@)
    }

    /// The edges of every graph join vertices that it holds, and there are
    /// finitely many vertices.
    pub proof fn lemma_well_formed(self)
        requires
            self.inv(),
        ensures
            self@.well_formed(),
    {
        assert(self@.values.dom() =~= self.vertices@.dom());
    }

    /// Creates empty graph.
    pub fn new() -> (graph: Self)
        ensures
            graph@ == GraphView::<T>::empty(),
    {
        let graph = Self { vertices: HashMap::new(), edges: HashMap::new() };
        assert(graph@ =~= GraphView::<T>::empty());
        graph
    }

    /// Moves both tables out of the graph, which is left empty.
    fn take_tables(&mut self) -> (tables: (
        HashMap<usize, GraphVertex<T>>,
        HashMap<usize, HashSet<usize>>,
    ))
        ensures
            tables.0 == old(self).vertices,
            tables.1 == old(self).edges,
            tables_agree(tables.0@, tables.1@),
            final(self).vertices@ == Map::<usize, GraphVertex<T>>::empty(),
            final(self).edges@ == Map::<usize, HashSet<usize>>::empty(),
    {
        proof {
            use_type_invariant(&*self);
        }
        let mut edges = HashMap::new();
        std::mem::swap(&mut edges, &mut self.edges);
        let mut vertices = HashMap::new();
        std::mem::swap(&mut vertices, &mut self.vertices);
        (vertices, edges)
    }

    /// Moves two tables that agree into the graph, which holds no edge.
    fn put_tables(
        &mut self,
        vertices: HashMap<usize, GraphVertex<T>>,
        edges: HashMap<usize, HashSet<usize>>,
    )
        requires
            tables_agree(vertices@, edges@),
            old(self).edges@ == Map::<usize, HashSet<usize>>::empty(),
        ensures
            final(self).vertices == vertices,
            final(self).edges == edges,
    {
        self.vertices = vertices;
        self.edges = edges;
    }

    /// Add new vertex to graph with given value.
    ///
    /// If vertex with such identifier exists, replace value with new one; its
    /// edges stay.
    pub fn add_vertex(&mut self, vertex: usize, value: T)
        ensures
            final(self)@ == old(self)@.with_vertex(vertex, value),
    {
        let (mut vertices, edges) = self.take_tables();
        vertices.insert(vertex, GraphVertex::new(vertex, value));
        self.put_tables(vertices, edges);
        assert(self@.values =~= old(self)@.values.insert(vertex, value));
    }

    /// Remove vertex from graph, together with every edge that starts or ends
    /// at it.
    ///
    /// If vertex does not exists, nothing happens.
    pub fn remove_vertex(&mut self, vertex: usize)
        ensures
            final(self)@ == old(self)@.without_vertex(vertex),
    {
        if !self.vertices.contains_key(&vertex) {
            proof {
                use_type_invariant(&*self);
                self.lemma_well_formed();
                lemma_remove_vertex_scrubs(self@, vertex);
            }
            return ;
        }
        let (mut vertices, mut edges) = self.take_tables();
        let ghost at_first = edges@;
        edges.remove(&vertex);
        let ghost before = edges@;
        let sources = keys_to_vec(&edges);
        let mut i: usize = 0;
        while i < sources.len()
            invariant
                i <= sources.len(),
                sources@.no_duplicates(),
                sources@.to_set() == before.dom(),
                forall|from: usize| #[trigger] edges@.contains_key(from) ==> before.contains_key(from),
                forall|k: int|
                    i <= k < sources.len() ==> edges@.contains_key(#[trigger] sources[k])
                        && edges@[sources[k]]@ == before[sources[k]]@,
                forall|k: int|
                    0 <= k < i ==> row_of(edges@, #[trigger] sources[k]) == row_of(
                        before,
                        sources[k],
                    ).remove(vertex),
            decreases sources.len() - i,
        {
            let source = sources[i];
            let ghost at_entry = edges@;
            let touches = match edges.get(&source) {
                Some(successors) => successors.contains(&vertex),
                None => false,
            };
            if touches {
                match edges.remove(&source) {
                    Some(mut successors) => {
                        successors.remove(&vertex);
                        if !successors.is_empty() {
                            edges.insert(source, successors);
                        }
                    },
                    None => {},
                }
            }
            proof {
                assert forall|k: int| i < k < sources.len() implies edges@.contains_key(
                    #[trigger] sources[k],
                ) && edges@[sources[k]]@ == before[sources[k]]@ by {
                    assert(sources[k] != source);
                }
                assert forall|k: int| 0 <= k < i + 1 implies row_of(edges@, #[trigger] sources[k])
                    == row_of(before, sources[k]).remove(vertex) by {
                    if k < i {
                        assert(sources[k] != source);
                        assert(row_of(edges@, sources[k]) == row_of(at_entry, sources[k]));
                    } else {
                        assert(sources[k] == source);
                        assert(at_entry[source]@ == before[source]@);
                        assert(row_of(edges@, source) =~= row_of(before, source).remove(vertex));
                    }
                }
            }
            i += 1;
        }
        vertices.remove(&vertex);
        proof {
            assert forall|p: (usize, usize)|
                relation_of(edges@).contains(p) == (relation_of(at_first).contains(p) && p.0
                    != vertex && p.1 != vertex) by {
                if before.contains_key(p.0) {
                    assert(sources@.to_set().contains(p.0));
                    let k = choose|k: int| 0 <= k < sources.len() && sources[k] == p.0;
                    assert(row_of(edges@, sources[k]) == row_of(before, sources[k]).remove(vertex));
                }
            }
        }
        self.put_tables(vertices, edges);
        assert(self@.values =~= old(self)@.values.remove(vertex));
        assert(self@.edges =~= old(self)@.without_vertex(vertex).edges);
    }

    /// Add edge to current graph, both start and end of edge must exist in graph.
    ///
    /// Adding an edge that is there already changes nothing.
    ///
    /// # Errors
    /// Returns [`VertexNotExistsError`] naming `vertex_from` if it is not in
    /// the graph, else naming `vertex_to` if that one is not; the graph is then
    /// unchanged.
    pub fn add_edge(&mut self, vertex_from: usize, vertex_to: usize) -> (result: Result<
        (),
        VertexNotExistsError,
    >)
        ensures
            match result {
                Ok(()) => {
                    &&& old(self)@.contains_vertex(vertex_from)
                    &&& old(self)@.contains_vertex(vertex_to)
                    &&& final(self)@ == old(self)@.with_edge(vertex_from, vertex_to)
                },
                Err(error) => {
                    &&& final(self)@ == old(self)@
                    &&& if !old(self)@.contains_vertex(vertex_from) {
                        error.vertex == vertex_from
                    } else {
                        !old(self)@.contains_vertex(vertex_to) && error.vertex == vertex_to
                    }
                },
            },
    {
        if !self.vertices.contains_key(&vertex_from) {
            return Err(VertexNotExistsError { vertex: vertex_from });
        }
        if !self.vertices.contains_key(&vertex_to) {
            return Err(VertexNotExistsError { vertex: vertex_to });
        }
        let (vertices, mut edges) = self.take_tables();
        let mut successors = match edges.remove(&vertex_from) {
            Some(set) => set,
            None => HashSet::new(),
        };
        successors.insert(vertex_to);
        edges.insert(vertex_from, successors);
        self.put_tables(vertices, edges);
        assert(self@.edges =~= old(self)@.edges.insert((vertex_from, vertex_to)));
        Ok(())
    }

    /// Remove edge from graph.
    ///
    /// If edge not presented in graph, nothing happens.
    pub fn remove_edge(&mut self, vertex_from: usize, vertex_to: usize)
        ensures
            final(self)@ == old(self)@.without_edge(vertex_from, vertex_to),
    {
        let (vertices, mut edges) = self.take_tables();
        let ghost before = edges@;
        match edges.remove(&vertex_from) {
            Some(mut successors) => {
                successors.remove(&vertex_to);
                if !successors.is_empty() {
                    edges.insert(vertex_from, successors);
                }
            },
            None => {},
        }
        proof {
            assert forall|p: (usize, usize)|
                relation_of(edges@).contains(p) == (relation_of(before).contains(p) && p != (
                    vertex_from,
                    vertex_to,
                )) by {
                if p.0 == vertex_from {
                    if before.contains_key(vertex_from) {
                        assert(edges@.contains_key(vertex_from) ==> edges@[vertex_from]@
                            == before[vertex_from]@.remove(vertex_to));
                        assert(!edges@.contains_key(vertex_from) ==> before[vertex_from]@.remove(
                            vertex_to,
                        ).is_empty());
                        if !edges@.contains_key(vertex_from) && before[vertex_from]@.contains(p.1)
                            && p.1 != vertex_to {
                            assert(before[vertex_from]@.remove(vertex_to).contains(p.1));
                        }
                    }
                } else {
                    assert(edges@.contains_key(p.0) == before.contains_key(p.0));
                }
            }
        }
        self.put_tables(vertices, edges);
        assert(self@.edges =~= old(self)@.edges.remove((vertex_from, vertex_to)));
    }

    /// Get vertex from graph.
    ///
    /// If vertex not presented in graph, returns `None`.
    pub fn get_vertex(&self, vertex_id: usize) -> (vertex: Option<&GraphVertex<T>>)
        ensures
            match vertex {
                Some(found) => {
                    &&& self@.contains_vertex(vertex_id)
                    &&& found.id == vertex_id
                    &&& found.value == self@.values[vertex_id]
                },
                None => !self@.contains_vertex(vertex_id),
            },
    {
        proof {
            use_type_invariant(self);
        }
        self.vertices.get(&vertex_id)
    }

    /// Get set of neighbours of vertex in graph: the vertices that an edge
    /// from `vertex` leads to.
    ///
    /// If vertex not presented in graph, returns `None`; a vertex without
    /// out-edges has the empty set.
    pub fn get_neighbours(&self, vertex: usize) -> (neighbours: Option<HashSet<usize>>)
        ensures
            match neighbours {
                Some(set) => self@.contains_vertex(vertex) && set@ == self@.successors(vertex),
                None => !self@.contains_vertex(vertex),
            },
    {
        if self.vertices.contains_key(&vertex) {
            let listed = self.successors(vertex);
            Some(vec_to_set(&listed))
        } else {
            None
        }
    }

    /// The successors of `vertex`, each once, in the order in which its
    /// adjacency entry hands them out; none for a vertex that the graph does
    /// not hold.
    pub fn successors(&self, vertex: usize) -> (listed: Vec<usize>)
        ensures
            listed@.no_duplicates(),
            listed@.to_set() == self@.successors(vertex),
    {
        let listed = match self.edges.get(&vertex) {
            Some(set) => set_to_vec(set),
            None => Vec::new(),
        };
        assert(listed@.to_set() =~= self@.successors(vertex));
        listed
    }

    /// Get set of vertices of graph.
    pub fn get_vertices_ids(&self) -> (ids: HashSet<usize>)
        ensures
            ids@ == self@.ids(),
    {
        let keys = keys_to_vec(&self.vertices);
        assert(self@.ids() =~= self.vertices@.dom());
        vec_to_set(&keys)
    }

    /// Visit vertices in graph with `bfs` algorithm starting from `start_vertex`
    /// and apply `f` to them. Returns the vertices in the order in which `f`
    /// was applied: each vertex that `start_vertex` reaches, once, with
    /// `start_vertex` first, nearer vertices before farther ones, and the
    /// vertices after the first in the order in which they are found.
    ///
    /// In you want to visit all vertices in graph, see [`BfsVisitor`] for more details.
    pub fn bfs<F: FnMut(&GraphVertex<T>)>(&self, start_vertex: usize, f: F) -> (trace: Vec<usize>)
        requires
            self@.contains_vertex(start_vertex),
            accepts(f, self@),
        ensures
            applied(f, self@, trace@),
            trace@.no_duplicates(),
            trace@.to_set() == fresh_reach(self@.edges, Set::<usize>::empty(), start_vertex),
            trace@.len() > 0,
            trace@[0] == start_vertex,
            breadth_first(self@.edges, Set::<usize>::empty(), trace@),
    {
        let mut callback = f;
        let mut visitor = BfsVisitor::new(self);
        let trace = visitor.visit(start_vertex, &mut callback);
        proof {
            crate::reach::lemma_reaches_itself(self@.edges, Set::<usize>::empty(), start_vertex);
            assert(trace@.to_set().contains(start_vertex));
        }
        trace
    }

}

} // verus!
