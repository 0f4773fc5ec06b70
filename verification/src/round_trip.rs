//! A graph written out and read back is the same graph.
use vstd::prelude::*;

use crate::decimal::{decimal, is_digit, lemma_decimal_denotes, lemma_parse_decimal};
use crate::collections::lemma_take_next;
use crate::graph::GraphView;
use crate::reader::{
    lines_of, parse_outcome, parses_to, reached, split_lines, start, step, stored, ReaderView,
    Section,
};
use crate::text::{
    edge_line, edge_tokens, first_of, first_space, is_space, trim_end, trim_start, trimmed,
    vertex_line, GraphParseError,
};
use crate::writer::{edge_text, graph_lines, graph_text, join_lines, lists, vertex_text};

verus! {

/// A text of a value that a line can hold and give back: it is not empty,
/// does not end in white space, and holds no line feed.
pub open spec fn readable(value: Seq<char>) -> bool {
    &&& value.len() > 0
    &&& !is_space(value.last())
    &&& forall|i: int| 0 <= i < value.len() ==> #[trigger] value[i] != '\n'
}

/// `mark` stands nowhere in `text`.
pub open spec fn lacks(text: Seq<char>, mark: char) -> bool {
    forall|i: int| 0 <= i < text.len() ==> #[trigger] text[i] != mark
}

/// The first `mark` of a text that starts with something without it, and
/// then holds it, stands right after that start.
pub proof fn lemma_first_of_after(prefix: Seq<char>, mark: char, rest: Seq<char>)
    requires
        lacks(prefix, mark),
    ensures
        first_of(prefix + seq![mark] + rest, mark) == prefix.len(),
    decreases prefix.len(),
{
    let text = prefix + seq![mark] + rest;
    if prefix.len() == 0 {
        assert(text[0] == mark);
    } else {
        assert(text[0] == prefix[0]);
        assert(text.drop_first() =~= prefix.drop_first() + seq![mark] + rest);
        assert forall|i: int| 0 <= i < prefix.drop_first().len() implies #[trigger] prefix.drop_first()[i]
            != mark by {
            assert(prefix.drop_first()[i] == prefix[i + 1]);
        }
        lemma_first_of_after(prefix.drop_first(), mark, rest);
    }
}

/// A text without `mark` has none to find.
pub proof fn lemma_first_of_absent(text: Seq<char>, mark: char)
    requires
        lacks(text, mark),
    ensures
        first_of(text, mark) == text.len(),
    decreases text.len(),
{
    if text.len() > 0 {
        assert(text[0] != mark);
        assert forall|i: int| 0 <= i < text.drop_first().len() implies #[trigger] text.drop_first()[i]
            != mark by {
            assert(text.drop_first()[i] == text[i + 1]);
        }
        lemma_first_of_absent(text.drop_first(), mark);
    }
}

/// A text that neither starts nor ends with white space is left as it is
/// when white space is stripped from its ends.
pub proof fn lemma_trimmed_same(text: Seq<char>)
    requires
        text.len() > 0,
        !is_space(text[0]),
        !is_space(text.last()),
    ensures
        trimmed(text) == text,
{
    assert(trim_start(text) == text);
    assert(trim_end(text) == text);
}

/// Decimal notation holds neither a space nor a line feed, and starts with
/// a digit.
pub proof fn lemma_decimal_plain(n: nat)
    ensures
        lacks(decimal(n), ' '),
        lacks(decimal(n), '\n'),
        decimal(n).len() > 0,
        is_digit(decimal(n)[0]),
        is_digit(decimal(n).last()),
{
    lemma_decimal_denotes(n);
    let text = decimal(n);
    assert forall|i: int| 0 <= i < text.len() implies #[trigger] text[i] != ' ' && text[i]
        != '\n' by {
        assert(is_digit(text[i]));
    }
}

/// The line that describes a vertex is read as that vertex.
pub proof fn lemma_vertex_line<E>(id: usize, value: Seq<char>)
    requires
        readable(value),
    ensures
        vertex_line::<E>(vertex_text(id, value)) == Ok::<
            Option<(usize, Seq<char>)>,
            GraphParseError<E>,
        >(Some((id, value))),
        lacks(vertex_text(id, value), '\n'),
{
    let digits = decimal(id as nat);
    let line = vertex_text(id, value);
    lemma_decimal_plain(id as nat);
    lemma_parse_decimal(id);
    assert(line[0] == digits[0]);
    assert(line.last() == value.last());
    assert(is_digit(line[0]));
    lemma_trimmed_same(line);
    lemma_first_of_after(digits, ' ', value);
    assert(first_space(line) == digits.len());
    assert(line.take(digits.len() as int) =~= digits);
    assert(line.skip(digits.len() as int + 1) =~= value);
    assert(line != seq!['#']) by {
        assert(line[0] != '#');
        assert(seq!['#'][0] == '#');
    }
    assert forall|i: int| 0 <= i < line.len() implies #[trigger] line[i] != '\n' by {
        if i < digits.len() {
            assert(line[i] == digits[i]);
        } else if i > digits.len() {
            assert(line[i] == value[i - digits.len() - 1]);
        }
    }
}

/// The line that describes an edge is read as that edge.
pub proof fn lemma_edge_line<E>(edge: (usize, usize))
    ensures
        edge_line::<E>(edge_text(edge)) == Ok::<Option<(usize, usize)>, GraphParseError<E>>(
            Some(edge),
        ),
        lacks(edge_text(edge), '\n'),
{
    let from = decimal(edge.0 as nat);
    let to = decimal(edge.1 as nat);
    let line = edge_text(edge);
    lemma_decimal_plain(edge.0 as nat);
    lemma_decimal_plain(edge.1 as nat);
    lemma_parse_decimal(edge.0);
    lemma_parse_decimal(edge.1);
    assert(line[0] == from[0]);
    assert(line.last() == to.last());
    lemma_trimmed_same(line);
    lemma_first_of_after(from, ' ', to);
    assert(first_space(line) == from.len());
    assert(line.take(from.len() as int) =~= from);
    assert(line.skip(from.len() as int + 1) =~= to);
    lemma_first_of_absent(to, ' ');
    assert(to.take(to.len() as int) =~= to);
    assert(edge_tokens(line) == (from, to));
    assert forall|i: int| 0 <= i < line.len() implies #[trigger] line[i] != '\n' by {
        if i < from.len() {
            assert(line[i] == from[i]);
        } else if i > from.len() {
            assert(line[i] == to[i - from.len() - 1]);
        }
    }
}

/// The line `#` ends the vertices.
pub proof fn lemma_separator_line<E>()
    ensures
        vertex_line::<E>(seq!['#']) == Ok::<Option<(usize, Seq<char>)>, GraphParseError<E>>(None),
        lacks(seq!['#'], '\n'),
{
    let line = seq!['#'];
    assert(line[0] == '#');
    lemma_trimmed_same(line);
}

/// The text of some lines starts with the first of them.
pub proof fn lemma_join_front(line: Seq<char>, rest: Seq<Seq<char>>)
    ensures
        join_lines(seq![line] + rest) == line + seq!['\n'] + join_lines(rest),
    decreases rest.len(),
{
    let all = seq![line] + rest;
    if rest.len() == 0 {
        assert(all.drop_last() =~= Seq::<Seq<char>>::empty());
        assert(join_lines(all.drop_last()) =~= Seq::<char>::empty());
        assert(all.last() == line);
        assert(join_lines(all) =~= line + seq!['\n']);
        assert(join_lines(rest) =~= Seq::<char>::empty());
        assert(line + seq!['\n'] + join_lines(rest) =~= line + seq!['\n']);
    } else {
        lemma_join_front(line, rest.drop_last());
        assert(all.drop_last() =~= seq![line] + rest.drop_last());
        assert(all.last() == rest.last());
        assert(join_lines(all) =~= line + seq!['\n'] + join_lines(rest));
    }
}

/// A text made of lines without line feeds has these lines, and an empty
/// one after them.
pub proof fn lemma_split_join(lines: Seq<Seq<char>>)
    requires
        forall|i: int| 0 <= i < lines.len() ==> lacks(#[trigger] lines[i], '\n'),
    ensures
        split_lines(join_lines(lines)) == lines.push(Seq::<char>::empty()),
    decreases lines.len(),
{
    if lines.len() == 0 {
        assert(join_lines(lines) =~= Seq::<char>::empty());
        assert(split_lines(Seq::<char>::empty()) =~= seq![Seq::<char>::empty()]);
        assert(lines.push(Seq::<char>::empty()) =~= seq![Seq::<char>::empty()]);
    } else {
        let line = lines[0];
        let rest = lines.drop_first();
        assert(lines =~= seq![line] + rest);
        lemma_join_front(line, rest);
        let text = join_lines(lines);
        let tail = join_lines(rest);
        assert(text == line + seq!['\n'] + tail);
        lemma_first_of_after(line, '\n', tail);
        assert(text.take(line.len() as int) =~= line);
        assert(text.skip(line.len() as int + 1) =~= tail);
        assert forall|i: int| 0 <= i < rest.len() implies lacks(#[trigger] rest[i], '\n') by {
            assert(rest[i] == lines[i + 1]);
        }
        lemma_split_join(rest);
        assert(split_lines(text) =~= seq![line] + split_lines(tail));
        assert(seq![line] + rest.push(Seq::<char>::empty()) =~= lines.push(
            Seq::<char>::empty(),
        ));
    }
}

/// Given the text of the value of any of the vertices `ids`, the reader of
/// values `f` answers with the value that `graph` holds for that vertex.
pub open spec fn reads_back<T, E, F: Fn(&str) -> Result<T, E>>(
    f: F,
    graph: GraphView<T>,
    ids: Seq<usize>,
    values: Seq<Seq<char>>,
) -> bool {
    forall|i: int, outcome: Result<T, E>|
        0 <= i < ids.len() && #[trigger] parses_to(f, values[i], outcome) ==> outcome == Ok::<
            T,
            E,
        >(graph.values[ids[i]])
}

/// The line at each place of the text of a graph: that of a vertex, the
/// line `#`, or that of an edge.
pub proof fn lemma_graph_line(
    ids: Seq<usize>,
    values: Seq<Seq<char>>,
    edges: Seq<(usize, usize)>,
    at: int,
)
    requires
        0 <= at < ids.len() + 1 + edges.len(),
    ensures
        graph_lines(ids, values, edges).len() == ids.len() + 1 + edges.len(),
        at < ids.len() ==> graph_lines(ids, values, edges)[at] == vertex_text(ids[at], values[at]),
        at == ids.len() ==> graph_lines(ids, values, edges)[at] == seq!['#'],
        at > ids.len() ==> graph_lines(ids, values, edges)[at] == edge_text(
            edges[at - ids.len() - 1],
        ),
{
    let first = Seq::new(ids.len(), |i: int| vertex_text(ids[i], values[i]));
    let second = Seq::new(edges.len(), |i: int| edge_text(edges[i]));
    let head = first + seq![seq!['#']];
    assert(graph_lines(ids, values, edges) == head + second);
    if at < ids.len() {
        assert(head[at] == first[at]);
    } else if at == ids.len() {
        assert(head[at] == seq![seq!['#']][0]);
    } else {
        assert((head + second)[at] == second[at - head.len()]);
    }
}

/// The lines that a reader of the text of a graph is given.
pub proof fn lemma_lines_of_text(
    ids: Seq<usize>,
    values: Seq<Seq<char>>,
    edges: Seq<(usize, usize)>,
)
    requires
        values.len() == ids.len(),
        forall|i: int| 0 <= i < values.len() ==> readable(#[trigger] values[i]),
    ensures
        lines_of(graph_text(ids, values, edges)) == graph_lines(ids, values, edges) + seq![
            Seq::<char>::empty(),
            Seq::<char>::empty(),
            Seq::<char>::empty(),
        ],
{
    let lines = graph_lines(ids, values, edges);
    lemma_graph_line(ids, values, edges, 0);
    assert forall|k: int| 0 <= k < lines.len() implies lacks(#[trigger] lines[k], '\n') by {
        lemma_graph_line(ids, values, edges, k);
        if k < ids.len() {
            lemma_vertex_line::<()>(ids[k], values[k]);
        } else if k == ids.len() {
            lemma_separator_line::<()>();
        } else {
            lemma_edge_line::<()>(edges[k - ids.len() - 1]);
        }
    }
    lemma_split_join(lines);
    let none = Seq::<char>::empty();
    assert(lines.push(none) + seq![none, none] =~= lines + seq![none, none, none]);
}

/// What a reader of the text of `graph` has gathered after `count` lines:
/// first the vertices of the lines read; after the line `#` all vertices and
/// the edges of the lines read; at the end the graph.
pub open spec fn expected<T>(
    graph: GraphView<T>,
    ids: Seq<usize>,
    edges: Seq<(usize, usize)>,
    count: int,
) -> ReaderView<T> {
    if count <= ids.len() {
        ReaderView {
            graph: GraphView {
                values: graph.values.restrict(ids.take(count).to_set()),
                edges: Set::empty(),
            },
            section: Section::Vertices,
        }
    } else if count <= ids.len() + 1 + edges.len() {
        ReaderView {
            graph: GraphView {
                values: graph.values,
                edges: edges.take(count - ids.len() - 1).to_set(),
            },
            section: Section::Edges,
        }
    } else {
        ReaderView { graph, section: Section::Done }
    }
}

/// The line of a vertex leads a reader of the text of `graph` on as
/// expected.
pub proof fn lemma_step_vertex<T, E, F: Fn(&str) -> Result<T, E>>(
    f: F,
    graph: GraphView<T>,
    ids: Seq<usize>,
    values: Seq<Seq<char>>,
    edges: Seq<(usize, usize)>,
    count: int,
    after: Result<ReaderView<T>, GraphParseError<E>>,
)
    requires
        lists(graph, ids, edges),
        values.len() == ids.len(),
        forall|i: int| 0 <= i < values.len() ==> readable(#[trigger] values[i]),
        reads_back(f, graph, ids, values),
        0 <= count < ids.len(),
        step(f, expected(graph, ids, edges, count), vertex_text(ids[count], values[count]), after),
    ensures
        after == Ok::<ReaderView<T>, GraphParseError<E>>(expected(graph, ids, edges, count + 1)),
{
    let before = expected(graph, ids, edges, count);
    let id = ids[count];
    let value = values[count];
    lemma_vertex_line::<E>(id, value);
    assert(before.section == Section::Vertices);
    let outcome = choose|outcome: Result<T, E>| #[trigger]
        parses_to(f, value, outcome) && after == stored(before, id, outcome);
    assert(parses_to(f, values[count], outcome));
    assert(outcome == Ok::<T, E>(graph.values[id]));
    lemma_take_next(ids, count);
    assert(ids.to_set().contains(id));
    let next = expected(graph, ids, edges, count + 1);
    assert(before.graph.with_vertex(id, graph.values[id]).values =~= next.graph.values);
    assert(before.graph.with_vertex(id, graph.values[id]) == next.graph);
}

/// The line `#` leads a reader that has read all vertices on to the edges.
pub proof fn lemma_step_separator<T, E, F: Fn(&str) -> Result<T, E>>(
    f: F,
    graph: GraphView<T>,
    ids: Seq<usize>,
    edges: Seq<(usize, usize)>,
    after: Result<ReaderView<T>, GraphParseError<E>>,
)
    requires
        lists(graph, ids, edges),
        step(f, expected(graph, ids, edges, ids.len() as int), seq!['#'], after),
    ensures
        after == Ok::<ReaderView<T>, GraphParseError<E>>(
            expected(graph, ids, edges, ids.len() as int + 1),
        ),
{
    let before = expected(graph, ids, edges, ids.len() as int);
    let next = expected(graph, ids, edges, ids.len() as int + 1);
    lemma_separator_line::<E>();
    assert(ids.take(ids.len() as int) =~= ids);
    assert(before.graph.values =~= graph.values);
    assert(edges.take(0) =~= Seq::<(usize, usize)>::empty());
    assert(next.graph.edges =~= Set::<(usize, usize)>::empty());
    assert(before.graph == next.graph);
}

/// The line of an edge leads a reader of the text of `graph` on as expected.
pub proof fn lemma_step_edge<T, E, F: Fn(&str) -> Result<T, E>>(
    f: F,
    graph: GraphView<T>,
    ids: Seq<usize>,
    edges: Seq<(usize, usize)>,
    at: int,
    after: Result<ReaderView<T>, GraphParseError<E>>,
)
    requires
        graph.well_formed(),
        lists(graph, ids, edges),
        0 <= at < edges.len(),
        step(f, expected(graph, ids, edges, ids.len() + 1 + at), edge_text(edges[at]), after),
    ensures
        after == Ok::<ReaderView<T>, GraphParseError<E>>(
            expected(graph, ids, edges, ids.len() + 1 + at + 1),
        ),
{
    let before = expected(graph, ids, edges, ids.len() + 1 + at);
    let next = expected(graph, ids, edges, ids.len() + 1 + at + 1);
    let edge = edges[at];
    lemma_edge_line::<E>(edge);
    assert(before.section == Section::Edges);
    assert(edges.to_set().contains(edge));
    assert(graph.edges.contains((edge.0, edge.1)));
    assert(before.graph.contains_vertex(edge.0));
    assert(before.graph.contains_vertex(edge.1));
    lemma_take_next(edges, at);
    assert(before.graph.with_edge(edge.0, edge.1).edges =~= next.graph.edges);
    assert(before.graph.with_edge(edge.0, edge.1) == next.graph);
}

/// An empty line leads a reader that has read all edges to the end, with
/// the graph.
pub proof fn lemma_step_end<T, E, F: Fn(&str) -> Result<T, E>>(
    f: F,
    graph: GraphView<T>,
    ids: Seq<usize>,
    edges: Seq<(usize, usize)>,
    after: Result<ReaderView<T>, GraphParseError<E>>,
)
    requires
        lists(graph, ids, edges),
        step(
            f,
            expected(graph, ids, edges, ids.len() as int + 1 + edges.len()),
            Seq::<char>::empty(),
            after,
        ),
    ensures
        after == Ok::<ReaderView<T>, GraphParseError<E>>(
            expected(graph, ids, edges, ids.len() as int + 1 + edges.len() + 1),
        ),
{
    let before = expected(graph, ids, edges, ids.len() as int + 1 + edges.len());
    let next = expected(graph, ids, edges, ids.len() as int + 1 + edges.len() + 1);
    crate::reader::lemma_empty_line::<E>();
    assert(before.section == Section::Edges);
    assert(edges.take(edges.len() as int) =~= edges);
    assert(before.graph.edges =~= graph.edges);
    assert(before.graph == graph);
}

/// `text` describes `graph` in a way that `f` can read back: it lists the
/// vertices `ids` with the value texts `values` and the edges `edges`; each
/// value text can stand in a line; and `f`, given one, answers with the value.
pub open spec fn describes<T, E, F: Fn(&str) -> Result<T, E>>(
    f: F,
    graph: GraphView<T>,
    ids: Seq<usize>,
    values: Seq<Seq<char>>,
    edges: Seq<(usize, usize)>,
    text: Seq<char>,
) -> bool {
    &&& graph.well_formed()
    &&& lists(graph, ids, edges)
    &&& values.len() == ids.len()
    &&& forall|i: int| 0 <= i < values.len() ==> readable(#[trigger] values[i])
    &&& reads_back(f, graph, ids, values)
    &&& text == graph_text(ids, values, edges)
}

/// Each line of the text of `graph` leads a reader on as expected.
pub proof fn lemma_step_expected<T, E, F: Fn(&str) -> Result<T, E>>(
    f: F,
    graph: GraphView<T>,
    ids: Seq<usize>,
    values: Seq<Seq<char>>,
    edges: Seq<(usize, usize)>,
    text: Seq<char>,
    count: int,
    after: Result<ReaderView<T>, GraphParseError<E>>,
)
    requires
        describes(f, graph, ids, values, edges, text),
        0 <= count < lines_of(text).len(),
        step(f, expected(graph, ids, edges, count), lines_of(text)[count], after),
    ensures
        after == Ok::<ReaderView<T>, GraphParseError<E>>(expected(graph, ids, edges, count + 1)),
{
    lemma_lines_of_text(ids, values, edges);
    lemma_graph_line(ids, values, edges, 0);
    let lines = lines_of(text);
    let own = graph_lines(ids, values, edges);
    if count < ids.len() {
        lemma_graph_line(ids, values, edges, count);
        assert(lines[count] == own[count]);
        lemma_step_vertex(f, graph, ids, values, edges, count, after);
    } else if count == ids.len() {
        lemma_graph_line(ids, values, edges, count);
        assert(lines[count] == own[count]);
        lemma_step_separator(f, graph, ids, edges, after);
    } else if count < ids.len() + 1 + edges.len() {
        lemma_graph_line(ids, values, edges, count);
        assert(lines[count] == own[count]);
        lemma_step_edge(f, graph, ids, edges, count - ids.len() - 1, after);
    } else if count == ids.len() + 1 + edges.len() {
        assert(lines[count] == Seq::<char>::empty());
        lemma_step_end(f, graph, ids, edges, after);
    } else {
        assert(expected(graph, ids, edges, count).section == Section::Done);
    }
}

/// A reader of the text of `graph` is, after any number of lines, as
/// expected.
pub proof fn lemma_reached_expected<T, E, F: Fn(&str) -> Result<T, E>>(
    f: F,
    graph: GraphView<T>,
    ids: Seq<usize>,
    values: Seq<Seq<char>>,
    edges: Seq<(usize, usize)>,
    text: Seq<char>,
    count: int,
    state: ReaderView<T>,
)
    requires
        describes(f, graph, ids, values, edges, text),
        0 <= count <= lines_of(text).len(),
        reached(f, lines_of(text).take(count), state),
    ensures
        state == expected(graph, ids, edges, count),
    decreases count,
{
    let lines = lines_of(text);
    let read = lines.take(count);
    if count == 0 {
        assert(ids.take(0) =~= Seq::<usize>::empty());
        assert(expected(graph, ids, edges, 0).graph.values =~= Map::<usize, T>::empty());
        assert(expected(graph, ids, edges, 0) =~= start::<T>());
    } else {
        let mid = choose|mid: ReaderView<T>|
            reached(f, read.drop_last(), mid) && #[trigger] step(
                f,
                mid,
                read.last(),
                Ok::<ReaderView<T>, GraphParseError<E>>(state),
            );
        assert(read.drop_last() =~= lines.take(count - 1));
        assert(read.last() == lines[count - 1]);
        lemma_reached_expected(f, graph, ids, values, edges, text, count - 1, mid);
        lemma_step_expected(
            f,
            graph,
            ids,
            values,
            edges,
            text,
            count - 1,
            Ok::<ReaderView<T>, GraphParseError<E>>(state),
        );
    }
}

/// Reading the text that describes a graph gives that graph: the same
/// vertices with the same values, and the same edges.
pub proof fn lemma_round_trip<T, E, F: Fn(&str) -> Result<T, E>>(
    f: F,
    graph: GraphView<T>,
    ids: Seq<usize>,
    values: Seq<Seq<char>>,
    edges: Seq<(usize, usize)>,
    text: Seq<char>,
    outcome: Result<GraphView<T>, GraphParseError<E>>,
)
    requires
        describes(f, graph, ids, values, edges, text),
        parse_outcome(f, text, outcome),
    ensures
        outcome == Ok::<GraphView<T>, GraphParseError<E>>(graph),
{
    let lines = lines_of(text);
    match outcome {
        Ok(read) => {
            let count = choose|count: int|
                0 <= count <= lines.len() && #[trigger] reached(
                    f,
                    lines.take(count),
                    ReaderView { graph: read, section: Section::Done },
                );
            lemma_reached_expected(
                f,
                graph,
                ids,
                values,
                edges,
                text,
                count,
                ReaderView { graph: read, section: Section::Done },
            );
        },
        Err(error) => {
            let (count, mid) = choose|count: int, mid: ReaderView<T>|
                0 <= count < lines.len() && #[trigger] reached(f, lines.take(count), mid) && step(
                    f,
                    mid,
                    lines[count],
                    Err::<ReaderView<T>, GraphParseError<E>>(error),
                );
            lemma_reached_expected(f, graph, ids, values, edges, text, count, mid);
            lemma_step_expected(
                f,
                graph,
                ids,
                values,
                edges,
                text,
                count,
                Err::<ReaderView<T>, GraphParseError<E>>(error),
            );
        },
    }
}

} // verus!
