//! Writing a graph out in its text form.
use std::fmt::Display;
use vstd::prelude::*;
use vstd::string::*;

use crate::collections::set_to_vec;
use crate::decimal::{decimal, push_decimal};
use crate::graph::{Graph, GraphView};
use crate::text::shows;

verus! {

/// The line that describes a vertex: its identifier, a space, and the text
/// of its value.
pub open spec fn vertex_text(id: usize, value: Seq<char>) -> Seq<char> {
    decimal(id as nat) + seq![' '] + value
}

/// The line that describes an edge: the identifiers of its start and its
/// end, with a space between them.
pub open spec fn edge_text(edge: (usize, usize)) -> Seq<char> {
    decimal(edge.0 as nat) + seq![' '] + decimal(edge.1 as nat)
}

/// The lines of the text that describes the vertices `ids`, whose values
/// have the texts `values`, and the edges `edges`: a line for each vertex, the
/// line `#`, and a line for each edge.
pub open spec fn graph_lines(
    ids: Seq<usize>,
    values: Seq<Seq<char>>,
    edges: Seq<(usize, usize)>,
) -> Seq<Seq<char>> {
    Seq::new(ids.len(), |i: int| vertex_text(ids[i], values[i])) + seq![seq!['#']] + Seq::new(
        edges.len(),
        |i: int| edge_text(edges[i]),
    )
}

/// The text made of `lines`, each with a line feed after it.
pub open spec fn join_lines(lines: Seq<Seq<char>>) -> Seq<char>
    decreases lines.len(),
{
    if lines.len() == 0 {
        Seq::empty()
    } else {
        join_lines(lines.drop_last()) + lines.last() + seq!['\n']
    }
}

/// The text that describes the vertices `ids` with the value texts `values`
/// and then, after a line `#`, the edges `edges`.
pub open spec fn graph_text(
    ids: Seq<usize>,
    values: Seq<Seq<char>>,
    edges: Seq<(usize, usize)>,
) -> Seq<char> {
    join_lines(graph_lines(ids, values, edges))
}

/// `ids` lists the vertices of `graph` and `edges` its edges, each once.
pub open spec fn lists<T>(graph: GraphView<T>, ids: Seq<usize>, edges: Seq<(usize, usize)>) -> bool {
    &&& ids.no_duplicates()
    &&& ids.to_set() == graph.ids()
    &&& edges.no_duplicates()
    &&& edges.to_set() == graph.edges
}

/// `text` describes `graph`: its vertices in some order, each once and with
/// its value as that is displayed, and then its edges in some order, each
/// once.
pub open spec fn renders<T: Display>(graph: GraphView<T>, text: Seq<char>) -> bool {
    exists|ids: Seq<usize>, values: Seq<Seq<char>>, edges: Seq<(usize, usize)>|
        {
            &&& lists(graph, ids, edges)
            &&& values.len() == ids.len()
            &&& forall|i: int|
                0 <= i < ids.len() ==> shows(graph.values[#[trigger] ids[i]], values[i])
            &&& text == #[trigger] graph_text(ids, values, edges)
        }
}

impl<T: Display> Graph<T> {
    /// The text that describes the graph: a line for each vertex, holding
    /// its identifier and its value as that is displayed; a line `#`; and a
    /// line for each edge, holding the identifiers of its start and its end.
    pub fn to_string(&self) -> (text: String)
        ensures
            renders(self@, text@),
    {
        proof {
            use_type_invariant(self);
            self.lemma_well_formed();
        }
        let ids = set_to_vec(&self.get_vertices_ids());
        let mut out = String::new();
        let ghost mut values: Seq<Seq<char>> = Seq::empty();
        let ghost mut lines: Seq<Seq<char>> = Seq::empty();
        let mut i: usize = 0;
        while i < ids.len()
            invariant
                i <= ids.len(),
                ids@.to_set() == self@.ids(),
                values.len() == i,
                forall|k: int|
                    0 <= k < i ==> shows(self@.values[#[trigger] ids@[k]], values[k]),
                lines.len() == i,
                forall|k: int| 0 <= k < i ==> #[trigger] lines[k] == vertex_text(ids@[k], values[k]),
                out@ == join_lines(lines),
            decreases ids.len() - i,
        {
            let id = ids[i];
            proof {
                assert(ids@.to_set().contains(id));
            }
            let vertex = self.get_vertex(id).unwrap();
            push_decimal(&mut out, id);
            out.push(' ');
            let shown = vertex.value.to_string();
            out.append(shown.as_str());
            out.push('\n');
            proof {
                let before = lines;
                values = values.push(shown@);
                lines = lines.push(vertex_text(id, shown@));
                assert(lines.drop_last() =~= before);
                assert(shows(self@.values[id], shown@));
                assert(out@ =~= join_lines(before) + vertex_text(id, shown@) + seq!['\n']);
            }
            i += 1;
        }
        out.push('#');
        out.push('\n');
        let ghost vertex_lines = lines;
        let ghost mut edges: Seq<(usize, usize)> = Seq::empty();
        let mut i: usize = 0;
        proof {
            lines = lines.push(seq!['#']);
            assert(lines.drop_last() =~= vertex_lines);
            assert(out@ =~= join_lines(vertex_lines) + seq!['#'] + seq!['\n']);
        }
        while i < ids.len()
            invariant
                i <= ids.len(),
                ids@.no_duplicates(),
                out@ == join_lines(lines),
                lines.len() == ids.len() + 1 + edges.len(),
                forall|k: int|
                    0 <= k < edges.len() ==> #[trigger] lines[ids.len() + 1 + k] == edge_text(
                        edges[k],
                    ),
                forall|k: int|
                    0 <= k <= ids.len() ==> #[trigger] lines[k] == vertex_lines.push(seq!['#'])[k],
                vertex_lines.len() == ids.len(),
                forall|k: int|
                    0 <= k < ids.len() ==> #[trigger] vertex_lines[k] == vertex_text(
                        ids@[k],
                        values[k],
                    ),
                values.len() == ids.len(),
                ids@.to_set() == self@.ids(),
                forall|k: int|
                    0 <= k < ids.len() ==> shows(self@.values[#[trigger] ids@[k]], values[k]),
                edges.no_duplicates(),
                forall|p: (usize, usize)|
                    #[trigger] edges.contains(p) <==> self@.edges.contains(p) && ids@.take(
                        i as int,
                    ).contains(p.0),
            decreases ids.len() - i,
        {
            let from = ids[i];
            let targets = self.successors(from);
            let ghost earlier = edges;
            let mut j: usize = 0;
            proof {
                assert(!ids@.take(i as int).contains(from)) by {
                    if ids@.take(i as int).contains(from) {
                        let k = choose|k: int|
                            0 <= k < ids@.take(i as int).len() && ids@.take(i as int)[k] == from;
                        assert(ids@[k] == ids@[i as int]);
                    }
                }
                assert(targets@.take(0) =~= Seq::<usize>::empty());
            }
            while j < targets.len()
                invariant
                    j <= targets.len(),
                    i < ids.len(),
                    from == ids@[i as int],
                    targets@.no_duplicates(),
                    targets@.to_set() == self@.successors(from),
                    !ids@.take(i as int).contains(from),
                    out@ == join_lines(lines),
                    lines.len() == ids.len() + 1 + edges.len(),
                    forall|k: int|
                        0 <= k < edges.len() ==> #[trigger] lines[ids.len() + 1 + k] == edge_text(
                            edges[k],
                        ),
                    forall|k: int|
                        0 <= k <= ids.len() ==> #[trigger] lines[k] == vertex_lines.push(
                            seq!['#'],
                        )[k],
                    vertex_lines.len() == ids.len(),
                    edges.no_duplicates(),
                    forall|p: (usize, usize)|
                        #[trigger] edges.contains(p) <==> earlier.contains(p) || (p.0 == from
                            && targets@.take(j as int).contains(p.1)),
                    forall|p: (usize, usize)|
                        #[trigger] earlier.contains(p) <==> self@.edges.contains(p) && ids@.take(
                            i as int,
                        ).contains(p.0),
                decreases targets.len() - j,
            {
                let to = targets[j];
                let ghost listed = edges;
                push_decimal(&mut out, from);
                out.push(' ');
                push_decimal(&mut out, to);
                out.push('\n');
                proof {
                    let before = lines;
                    edges = edges.push((from, to));
                    lines = lines.push(edge_text((from, to)));
                    assert(lines.drop_last() =~= before);
                    assert(out@ =~= join_lines(before) + edge_text((from, to)) + seq!['\n']);
                    assert(!listed.contains((from, to))) by {
                        if targets@.take(j as int).contains(to) {
                            let k = choose|k: int|
                                0 <= k < targets@.take(j as int).len() && targets@.take(
                                    j as int,
                                )[k] == to;
                            assert(targets@[k] == targets@[j as int]);
                        }
                    }
                    assert forall|a: int, b: int|
                        0 <= a < edges.len() && 0 <= b < edges.len() && a != b implies edges[a]
                        != edges[b] by {
                        if a < listed.len() {
                            assert(listed.contains(edges[a]));
                        }
                        if b < listed.len() {
                            assert(listed.contains(edges[b]));
                        }
                    }
                    assert forall|p: (usize, usize)| #[trigger]
                        edges.contains(p) <==> earlier.contains(p) || (p.0 == from && targets@.take(
                            j as int + 1,
                        ).contains(p.1)) by {
                        let next = targets@.take(j as int + 1);
                        assert(next =~= targets@.take(j as int).push(to));
                        if edges.contains(p) {
                            let k = choose|k: int| 0 <= k < edges.len() && edges[k] == p;
                            if k < listed.len() {
                                assert(listed.contains(p));
                                if !earlier.contains(p) {
                                    let m = choose|m: int|
                                        0 <= m < targets@.take(j as int).len() && targets@.take(
                                            j as int,
                                        )[m] == p.1;
                                    assert(next[m] == p.1);
                                }
                            } else {
                                assert(next[j as int] == to);
                            }
                        }
                        if earlier.contains(p) {
                            assert(listed.contains(p));
                            let k = choose|k: int| 0 <= k < listed.len() && listed[k] == p;
                            assert(edges[k] == p);
                        }
                        if p.0 == from && next.contains(p.1) {
                            let m = choose|m: int| 0 <= m < next.len() && next[m] == p.1;
                            if m < j {
                                assert(targets@.take(j as int)[m] == p.1);
                                assert(listed.contains(p));
                                let k = choose|k: int| 0 <= k < listed.len() && listed[k] == p;
                                assert(edges[k] == p);
                            } else {
                                assert(edges[listed.len() as int] == p);
                            }
                        }
                    }
                }
                j += 1;
            }
            proof {
                assert(targets@.take(targets.len() as int) =~= targets@);
                let next = ids@.take(i as int + 1);
                assert(next =~= ids@.take(i as int).push(from));
                assert forall|p: (usize, usize)| #[trigger]
                    edges.contains(p) <==> self@.edges.contains(p) && next.contains(p.0) by {
                    if p.0 == from {
                        assert(targets@.to_set().contains(p.1) == self@.successors(from).contains(
                            p.1,
                        ));
                        assert(next[i as int] == from);
                    } else {
                        if next.contains(p.0) {
                            let k = choose|k: int| 0 <= k < next.len() && next[k] == p.0;
                            assert(ids@.take(i as int)[k] == p.0);
                        }
                        if ids@.take(i as int).contains(p.0) {
                            let k = choose|k: int|
                                0 <= k < ids@.take(i as int).len() && ids@.take(i as int)[k]
                                    == p.0;
                            assert(next[k] == p.0);
                        }
                    }
                }
            }
            i += 1;
        }
        proof {
            assert(ids@.take(ids.len() as int) =~= ids@);
            assert(edges.to_set() =~= self@.edges) by {
                assert forall|p: (usize, usize)| self@.edges.contains(p) implies ids@.contains(
                    p.0,
                ) by {
                    assert(self@.edges.contains((p.0, p.1)));
                    assert(self@.ids().contains(p.0));
                    assert(ids@.to_set().contains(p.0));
                }
            }
            assert(lists(self@, ids@, edges));
            let all = graph_lines(ids@, values, edges);
            assert(lines.len() == all.len());
            assert forall|k: int| 0 <= k < lines.len() implies lines[k] == all[k] by {
                if k <= ids.len() {
                    assert(lines[k] == vertex_lines.push(seq!['#'])[k]);
                } else {
                    assert(lines[ids.len() + 1 + (k - ids.len() - 1)] == edge_text(
                        edges[k - ids.len() - 1],
                    ));
                }
            }
            assert(lines =~= all);
            assert(out@ == graph_text(ids@, values, edges));
        }
        out
    }
}

} // verus!
