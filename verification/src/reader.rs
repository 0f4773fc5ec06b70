//! Reading a graph from its text form, line by line or as a whole.
use vstd::prelude::*;

use crate::graph::{Graph, GraphView, VertexNotExistsError};
use crate::strings::chars_of;
use crate::text::{
    edge_line, find_char, first_of, read_edge_line, read_vertex_line, trim_end, trim_start,
    trimmed, vertex_line, GraphParseError, VertexValueParseError,
};

verus! {

/// The part of a text that a reader is in.
#[derive(Debug, Clone, Copy, PartialEq, Eq, Structural)]
pub enum Section {
    /// The lines that describe vertices.
    Vertices,
    /// The lines that describe edges.
    Edges,
    /// After the line that ended the edges.
    Done,
}

/// What a reader has gathered so far, and where in the text it is.
#[verifier::ext_equal]
pub struct ReaderView<T> {
    pub graph: GraphView<T>,
    pub section: Section,
}

/// The reader of values `f`, given `text`, may answer `outcome`.
pub open spec fn parses_to<T, E, F: Fn(&str) -> Result<T, E>>(
    f: F,
    text: Seq<char>,
    outcome: Result<T, E>,
) -> bool {
    exists|given: &str| given@ == text && call_ensures(f, (given,), outcome)
}

/// The reader of values `f` may be given any text.
pub open spec fn reads_any<T, E, F: Fn(&str) -> Result<T, E>>(f: F) -> bool {
    forall|given: &str| call_requires(f, (given,))
}

/// A reader among the vertices after the value of the vertex `id` was read
/// with `outcome`: it holds the value under `id`, or fails with what the
/// reader of values reported.
pub open spec fn stored<T, E>(before: ReaderView<T>, id: usize, outcome: Result<T, E>) -> Result<
    ReaderView<T>,
    GraphParseError<E>,
> {
    match outcome {
        Ok(value) => Ok(
            ReaderView { graph: before.graph.with_vertex(id, value), section: Section::Vertices },
        ),
        Err(error) => Err(GraphParseError::ValueParseError(VertexValueParseError(error))),
    }
}

/// What one line does to a reader: `after` is the failure that the line
/// ends in, or the reader as the line leaves it.
///
/// Among the vertices, a line that describes a vertex has `f` read the value
/// and stores it under the identifier; an empty line or `#` leads on to the
/// edges. Among the edges, a line that describes an edge between two vertices
/// described before adds that edge; an empty line ends the text.
pub open spec fn step<T, E, F: Fn(&str) -> Result<T, E>>(
    f: F,
    before: ReaderView<T>,
    line: Seq<char>,
    after: Result<ReaderView<T>, GraphParseError<E>>,
) -> bool {
    match before.section {
        Section::Vertices => match vertex_line::<E>(line) {
            Err(error) => after == Err::<ReaderView<T>, GraphParseError<E>>(error),
            Ok(None) => after == Ok::<ReaderView<T>, GraphParseError<E>>(
                ReaderView { graph: before.graph, section: Section::Edges },
            ),
            Ok(Some((id, text))) => exists|outcome: Result<T, E>|
                #[trigger] parses_to(f, text, outcome) && after == stored(before, id, outcome),
        },
        Section::Edges => match edge_line::<E>(line) {
            Err(error) => after == Err::<ReaderView<T>, GraphParseError<E>>(error),
            Ok(None) => after == Ok::<ReaderView<T>, GraphParseError<E>>(
                ReaderView { graph: before.graph, section: Section::Done },
            ),
            Ok(Some((from, to))) => after == (if !before.graph.contains_vertex(from) {
                Err::<ReaderView<T>, GraphParseError<E>>(
                    GraphParseError::VertexNotExists(VertexNotExistsError { vertex: from }),
                )
            } else if !before.graph.contains_vertex(to) {
                Err(GraphParseError::VertexNotExists(VertexNotExistsError { vertex: to }))
            } else {
                Ok(
                    ReaderView {
                        graph: before.graph.with_edge(from, to),
                        section: Section::Edges,
                    },
                )
            }),
        },
        Section::Done => after == Ok::<ReaderView<T>, GraphParseError<E>>(before),
    }
}

/// The line of a vertex, whose value `f` has read with `outcome`, leads a
/// reader among the vertices to hold that value, or to fail with what `f`
/// reported.
pub proof fn lemma_step_stored<T, E, F: Fn(&str) -> Result<T, E>>(
    f: F,
    before: ReaderView<T>,
    line: Seq<char>,
    id: usize,
    text: Seq<char>,
    outcome: Result<T, E>,
)
    requires
        before.section == Section::Vertices,
        vertex_line::<E>(line) == Ok::<Option<(usize, Seq<char>)>, GraphParseError<E>>(
            Some((id, text)),
        ),
        parses_to(f, text, outcome),
    ensures
        step(f, before, line, stored(before, id, outcome)),
{
    assert(vertex_line::<E>(line) matches Ok(Some((i, t))) && i == id && t == text);
}

/// A line never fails for want of input: it fails for being too short, for
/// an identifier or a value that cannot be read, or for an edge at a vertex
/// not described; and after the end of the text no line fails.
pub proof fn lemma_step_failures<T, E, F: Fn(&str) -> Result<T, E>>(
    f: F,
    before: ReaderView<T>,
    line: Seq<char>,
    error: GraphParseError<E>,
)
    requires
        step(f, before, line, Err::<ReaderView<T>, GraphParseError<E>>(error)),
    ensures
        !(error is IO),
        before.section != Section::Done,
        error is ValueParseError ==> before.section == Section::Vertices,
        error is VertexNotExists ==> before.section == Section::Edges,
        error matches GraphParseError::DataError(expected, got) ==> expected == 2 && got == 1,
{
}

/// Reads the text of a graph line by line.
pub struct GraphReader<T> {
    graph: Graph<T>,
    section: Section,
}

impl<T> View for GraphReader<T> {
    type V = ReaderView<T>;

    closed spec fn view(&self) -> ReaderView<T> {
        ReaderView { graph: self.graph@, section: self.section }
    }
}

impl<T> GraphReader<T> {
    /// A reader at the start of a text.
    pub fn new() -> (reader: Self)
        ensures
            reader@ == (ReaderView { graph: GraphView::<T>::empty(), section: Section::Vertices }),
    {
        Self { graph: Graph::new(), section: Section::Vertices }
    }

    /// Takes in the part of `text` from `from` up to `to` as the next line.
    /// Returns whether the reader wants another line.
    pub fn feed_range<E, F: Fn(&str) -> Result<T, E>>(
        &mut self,
        text: &Vec<char>,
        from: usize,
        to: usize,
        parse_value: &F,
    ) -> (result: Result<bool, GraphParseError<E>>)
        requires
            from <= to <= text.len(),
            reads_any(*parse_value),
        ensures
            match result {
                Ok(more) => {
                    &&& step(
                        *parse_value,
                        old(self)@,
                        text@.subrange(from as int, to as int),
                        Ok(final(self)@),
                    )
                    &&& more == (final(self)@.section != Section::Done)
                },
                Err(error) => {
                    &&& step(
                        *parse_value,
                        old(self)@,
                        text@.subrange(from as int, to as int),
                        Err(error),
                    )
                    &&& final(self)@ == old(self)@
                },
            },
    {
        let ghost line = text@.subrange(from as int, to as int);
        match self.section {
            Section::Vertices => match read_vertex_line::<E>(text, from, to) {
                Err(error) => Err(error),
                Ok(None) => {
                    self.section = Section::Edges;
                    Ok(true)
                },
                Ok(Some((id, value_text))) => {
                    let outcome = parse_value(value_text.as_str());
                    proof {
                        lemma_step_stored(*parse_value, old(self)@, line, id, value_text@, outcome);
                    }
                    match outcome {
                        Ok(value) => {
                            self.graph.add_vertex(id, value);
                            Ok(true)
                        },
                        Err(error) => Err(
                            GraphParseError::ValueParseError(VertexValueParseError(error)),
                        ),
                    }
                },
            },
            Section::Edges => match read_edge_line::<E>(text, from, to) {
                Err(error) => Err(error),
                Ok(None) => {
                    self.section = Section::Done;
                    Ok(false)
                },
                Ok(Some((vertex_from, vertex_to))) => match self.graph.add_edge(
                    vertex_from,
                    vertex_to,
                ) {
                    Ok(()) => Ok(true),
                    Err(error) => Err(GraphParseError::VertexNotExists(error)),
                },
            },
            Section::Done => Ok(false),
        }
    }

    /// Takes in `line` as the next line of the text; at the end of the text,
    /// the empty line. Returns whether the reader wants another line.
    pub fn feed<E, F: Fn(&str) -> Result<T, E>>(&mut self, line: &str, parse_value: &F) -> (result:
        Result<bool, GraphParseError<E>>)
        requires
            reads_any(*parse_value),
        ensures
            match result {
                Ok(more) => {
                    &&& step(*parse_value, old(self)@, line@, Ok(final(self)@))
                    &&& more == (final(self)@.section != Section::Done)
                },
                Err(error) => {
                    &&& step(*parse_value, old(self)@, line@, Err(error))
                    &&& final(self)@ == old(self)@
                },
            },
    {
        let chars = chars_of(line);
        proof {
            assert(chars@.subrange(0, chars.len() as int) =~= line@);
        }
        self.feed_range(&chars, 0, chars.len(), parse_value)
    }

    /// The graph gathered so far.
    pub fn finish(self) -> (graph: Graph<T>)
        ensures
            graph@ == self@.graph,
    {
        self.graph
    }
}

/// The lines of `text`: what stands between its line feeds, before the first
/// and after the last.
pub open spec fn split_lines(text: Seq<char>) -> Seq<Seq<char>>
    decreases text.len(),
{
    let end = first_of(text, '\n');
    if end >= text.len() {
        seq![text]
    } else {
        proof {
            lemma_first_of_bounds(text, '\n');
        }
        seq![text.take(end)] + split_lines(text.skip(end + 1))
    }
}

/// The lines that a reader of `text` is given: those of the text, and then,
/// the text being at its end, empty ones, of which two end any text.
pub open spec fn lines_of(text: Seq<char>) -> Seq<Seq<char>> {
    split_lines(text) + seq![Seq::<char>::empty(), Seq::<char>::empty()]
}

/// A reader at the start of a text.
pub open spec fn start<T>() -> ReaderView<T> {
    ReaderView { graph: GraphView::<T>::empty(), section: Section::Vertices }
}

/// A reader that starts anew and is given `lines` one after the other, none
/// of which fails, may come to be `state`.
pub open spec fn reached<T, E, F: Fn(&str) -> Result<T, E>>(
    f: F,
    lines: Seq<Seq<char>>,
    state: ReaderView<T>,
) -> bool
    decreases lines.len(),
{
    if lines.len() == 0 {
        state == start::<T>()
    } else {
        exists|mid: ReaderView<T>|
            reached(f, lines.drop_last(), mid) && #[trigger] step(
                f,
                mid,
                lines.last(),
                Ok::<ReaderView<T>, GraphParseError<E>>(state),
            )
    }
}

/// `outcome` is what reading `text` may come to, `f` reading the values:
/// the graph gathered when a line has ended the edges, or the failure of the
/// first line that fails.
pub open spec fn parse_outcome<T, E, F: Fn(&str) -> Result<T, E>>(
    f: F,
    text: Seq<char>,
    outcome: Result<GraphView<T>, GraphParseError<E>>,
) -> bool {
    let lines = lines_of(text);
    match outcome {
        Ok(graph) => exists|count: int|
            0 <= count <= lines.len() && #[trigger] reached(
                f,
                lines.take(count),
                ReaderView { graph, section: Section::Done },
            ),
        Err(error) => exists|count: int, mid: ReaderView<T>|
            0 <= count < lines.len() && #[trigger] reached(f, lines.take(count), mid) && step(
                f,
                mid,
                lines[count],
                Err::<ReaderView<T>, GraphParseError<E>>(error),
            ),
    }
}

/// One more line after lines that led to `mid` leads on.
pub proof fn lemma_reached_next<T, E, F: Fn(&str) -> Result<T, E>>(
    f: F,
    lines: Seq<Seq<char>>,
    count: int,
    mid: ReaderView<T>,
    state: ReaderView<T>,
)
    requires
        0 <= count < lines.len(),
        reached(f, lines.take(count), mid),
        step(f, mid, lines[count], Ok::<ReaderView<T>, GraphParseError<E>>(state)),
    ensures
        reached(f, lines.take(count + 1), state),
{
    let longer = lines.take(count + 1);
    assert(longer.drop_last() =~= lines.take(count));
    assert(longer.last() == lines[count]);
    assert(reached(f, longer.drop_last(), mid));
    assert(step(f, mid, longer.last(), Ok::<ReaderView<T>, GraphParseError<E>>(state)));
}

/// The first line of a text and the lines after it.
pub proof fn lemma_split_lines_step(text: Seq<char>)
    ensures
        split_lines(text)[0] == text.take(first_of(text, '\n')),
        split_lines(text).len() >= 1,
        first_of(text, '\n') < text.len() ==> split_lines(text).skip(1) == split_lines(
            text.skip(first_of(text, '\n') + 1),
        ),
        first_of(text, '\n') >= text.len() ==> split_lines(text).len() == 1,
        0 <= first_of(text, '\n') <= text.len(),
{
    lemma_first_of_bounds(text, '\n');
    let end = first_of(text, '\n');
    if end >= text.len() {
        assert(text.take(end) =~= text);
    } else {
        assert(split_lines(text).skip(1) =~= split_lines(text.skip(end + 1)));
    }
}

/// The first `mark` of a text stands at a place of the text, or at its end.
pub proof fn lemma_first_of_bounds(text: Seq<char>, mark: char)
    ensures
        0 <= first_of(text, mark) <= text.len(),
    decreases text.len(),
{
    if text.len() > 0 && text[0] != mark {
        lemma_first_of_bounds(text.drop_first(), mark);
    }
}

/// An empty line, in either part of a text, describes nothing.
pub proof fn lemma_empty_line<E>()
    ensures
        vertex_line::<E>(Seq::<char>::empty()) == Ok::<
            Option<(usize, Seq<char>)>,
            GraphParseError<E>,
        >(None),
        edge_line::<E>(Seq::<char>::empty()) == Ok::<Option<(usize, usize)>, GraphParseError<E>>(
            None,
        ),
{
    assert(trim_start(Seq::<char>::empty()) == Seq::<char>::empty());
    assert(trim_end(Seq::<char>::empty()) == Seq::<char>::empty());
    assert(trimmed(Seq::<char>::empty()) == Seq::<char>::empty());
}

impl<T> Graph<T> {
    /// Reads a graph from `text`, with `parse_value` reading the values of
    /// the vertices.
    ///
    /// The text holds one line for each vertex, its identifier and, after a
    /// space, its value; then a line `#`; then one line for each edge, the
    /// identifiers of its start and its end with a space between them. An
    /// empty line, or the end of the text, ends the edges.
    ///
    /// # Errors
    /// The failure of the first line that fails: see [`GraphParseError`].
    pub fn parse<E, F: Fn(&str) -> Result<T, E>>(text: &str, parse_value: F) -> (result: Result<
        Graph<T>,
        GraphParseError<E>,
    >)
        requires
            reads_any(parse_value),
        ensures
            parse_outcome(
                parse_value,
                text@,
                match result {
                    Ok(graph) => Ok(graph@),
                    Err(error) => Err(error),
                },
            ),
    {
        let chars = chars_of(text);
        let ghost lines = lines_of(text@);
        let ghost own = split_lines(text@);
        let mut reader: GraphReader<T> = GraphReader::new();
        let mut pos: usize = 0;
        let ghost mut count: int = 0;
        proof {
            assert(chars@.skip(0) =~= chars@);
            assert(own.skip(0) =~= own);
            assert(lines.take(0) =~= Seq::<Seq<char>>::empty());
            lemma_split_lines_step(text@);
        }
        loop
            invariant_except_break
                0 <= count < own.len(),
                split_lines(chars@.skip(pos as int)) == own.skip(count),
                reached(parse_value, lines.take(count), reader@),
            invariant
                chars@ == text@,
                lines == lines_of(text@),
                own == split_lines(text@),
                pos <= chars.len(),
                reads_any(parse_value),
            ensures
                count == own.len(),
                reached(parse_value, lines.take(count), reader@),
            decreases chars.len() - pos,
        {
            let end = find_char(&chars, pos, chars.len(), '\n');
            proof {
                let rest = chars@.skip(pos as int);
                lemma_split_lines_step(rest);
                assert(rest =~= chars@.subrange(pos as int, chars.len() as int));
                assert(rest.take(end - pos) =~= chars@.subrange(pos as int, end as int));
                assert(own.skip(count)[0] == own[count]);
                assert(lines[count] == own[count]);
                if end < chars.len() {
                    assert(rest.skip(end - pos + 1) =~= chars@.skip(end as int + 1));
                    assert(own.skip(count).skip(1) =~= own.skip(count + 1));
                    assert(split_lines(chars@.skip(end as int + 1)).len() >= 1) by {
                        lemma_split_lines_step(chars@.skip(end as int + 1));
                    }
                } else {
                    assert(own.skip(count).len() == 1);
                }
            }
            let ghost before = reader@;
            match reader.feed_range(&chars, pos, end, &parse_value) {
                Err(error) => {
                    proof {
                        assert(reached(parse_value, lines.take(count), before) && step(
                            parse_value,
                            before,
                            lines[count],
                            Err::<ReaderView<T>, GraphParseError<E>>(error),
                        ));
                    }
                    return Err(error);
                },
                Ok(more) => {
                    proof {
                        lemma_reached_next(parse_value, lines, count, before, reader@);
                        count = count + 1;
                    }
                    if !more {
                        return Ok(reader.finish());
                    }
                },
            }
            if end == chars.len() {
                break ;
            }
            pos = end + 1;
        }
        let ghost before = reader@;
        proof {
            lemma_empty_line::<E>();
            assert(chars@.subrange(chars.len() as int, chars.len() as int) =~= Seq::<char>::empty());
            assert(lines[count] == Seq::<char>::empty());
            assert(lines[count + 1] == Seq::<char>::empty());
        }
        match reader.feed_range(&chars, chars.len(), chars.len(), &parse_value) {
            Err(error) => {
                proof {
                    assert(reached(parse_value, lines.take(count), before) && step(
                        parse_value,
                        before,
                        lines[count],
                        Err::<ReaderView<T>, GraphParseError<E>>(error),
                    ));
                }
                return Err(error);
            },
            Ok(more) => {
                proof {
                    lemma_reached_next(parse_value, lines, count, before, reader@);
                    count = count + 1;
                }
                if !more {
                    return Ok(reader.finish());
                }
            },
        }
        let ghost before = reader@;
        match reader.feed_range(&chars, chars.len(), chars.len(), &parse_value) {
            Err(error) => {
                proof {
                    assert(reached(parse_value, lines.take(count), before) && step(
                        parse_value,
                        before,
                        lines[count],
                        Err::<ReaderView<T>, GraphParseError<E>>(error),
                    ));
                }
                Err(error)
            },
            Ok(more) => {
                proof {
                    lemma_reached_next(parse_value, lines, count, before, reader@);
                    count = count + 1;
                    assert(lines.take(count) =~= lines);
                }
                Ok(reader.finish())
            },
        }
    }
}

} // verus!
