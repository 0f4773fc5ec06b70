//! The lines of the text form of a graph, and the failures of reading it.
use std::fmt::Display;
use vstd::prelude::*;
use vstd::string::*;

use crate::decimal::{decimal, parse_id, push_decimal, read_id, IdError};
use crate::graph::VertexNotExistsError;
use crate::strings::string_of;

verus! {

/// The failure to read the value of a vertex; it holds what the reader of
/// values reported.
#[derive(Debug)]
pub struct VertexValueParseError<E>(pub E);

/// A failure of input or output, as the standard library reports it. The
/// library only carries such a value.
#[verifier::external_type_specification]
#[verifier::external_body]
pub struct ExIoError(std::io::Error);

/// Why a graph could not be read from a text.
#[derive(Debug)]
pub enum GraphParseError<E> {
    /// The text itself could not be had. The readers of this library never
    /// report this: they are given the text. It is for those who fetch it.
    IO(std::io::Error),
    /// A line holds fewer items than it must: so many are expected, so many
    /// were found.
    DataError(usize, usize),
    /// Fail to parse vertex number
    VertexParseError(IdError),
    /// The value of a vertex could not be read.
    ValueParseError(VertexValueParseError<E>),
    /// An edge names a vertex that the text has not described.
    VertexNotExists(VertexNotExistsError),
}

/// What a reader of values reports becomes the failure to read a value.
impl<E> From<E> for VertexValueParseError<E> {
    fn from(error: E) -> (failure: Self) {
        VertexValueParseError(error)
    }
}

impl<E> vstd::std_specs::convert::FromSpecImpl<E> for VertexValueParseError<E> {
    open spec fn obeys_from_spec() -> bool {
        true
    }

    open spec fn from_spec(error: E) -> Self {
        VertexValueParseError(error)
    }
}

/// Each failure that reading a graph can come to becomes the failure of
/// reading the graph.
impl<E> From<VertexValueParseError<E>> for GraphParseError<E> {
    fn from(error: VertexValueParseError<E>) -> (failure: Self) {
        GraphParseError::ValueParseError(error)
    }
}

impl<E> vstd::std_specs::convert::FromSpecImpl<VertexValueParseError<E>> for GraphParseError<E> {
    open spec fn obeys_from_spec() -> bool {
        true
    }

    open spec fn from_spec(error: VertexValueParseError<E>) -> Self {
        GraphParseError::ValueParseError(error)
    }
}

impl<E> From<VertexNotExistsError> for GraphParseError<E> {
    fn from(error: VertexNotExistsError) -> (failure: Self) {
        GraphParseError::VertexNotExists(error)
    }
}

impl<E> vstd::std_specs::convert::FromSpecImpl<VertexNotExistsError> for GraphParseError<E> {
    open spec fn obeys_from_spec() -> bool {
        true
    }

    open spec fn from_spec(error: VertexNotExistsError) -> Self {
        GraphParseError::VertexNotExists(error)
    }
}

impl<E> From<IdError> for GraphParseError<E> {
    fn from(error: IdError) -> (failure: Self) {
        GraphParseError::VertexParseError(error)
    }
}

impl<E> vstd::std_specs::convert::FromSpecImpl<IdError> for GraphParseError<E> {
    open spec fn obeys_from_spec() -> bool {
        true
    }

    open spec fn from_spec(error: IdError) -> Self {
        GraphParseError::VertexParseError(error)
    }
}

impl<E> From<std::io::Error> for GraphParseError<E> {
    fn from(error: std::io::Error) -> (failure: Self) {
        GraphParseError::IO(error)
    }
}

impl<E> vstd::std_specs::convert::FromSpecImpl<std::io::Error> for GraphParseError<E> {
    open spec fn obeys_from_spec() -> bool {
        true
    }

    open spec fn from_spec(error: std::io::Error) -> Self {
        GraphParseError::IO(error)
    }
}

impl<E: Display> VertexValueParseError<E> {
    /// What the failure says: what the reader of values reported, as that is
    /// displayed.
    pub fn to_string(&self) -> (text: String)
        ensures
            shows(self.0, text@),
    {
        self.0.to_string()
    }
}

impl<E: Display> GraphParseError<E> {
    /// `text` is what the failure says.
    pub open spec fn says(self, text: Seq<char>) -> bool {
        match self {
            GraphParseError::IO(error) => shows(error, text),
            GraphParseError::DataError(expected, got) => text == "Incorrect data, "@ + decimal(
                expected as nat,
            ) + " items expected, "@ + decimal(got as nat) + " got"@,
            GraphParseError::VertexParseError(_) => text == "Fail to parse vertex number"@,
            GraphParseError::ValueParseError(error) => shows(error.0, text),
            GraphParseError::VertexNotExists(error) => text == error.message(),
        }
    }

    /// What the failure says.
    pub fn to_string(&self) -> (text: String)
        ensures
            self.says(text@),
    {
        match self {
            GraphParseError::IO(error) => error.to_string(),
            GraphParseError::DataError(expected, got) => {
                let mut text = String::from_str("Incorrect data, ");
                push_decimal(&mut text, *expected);
                text.append(" items expected, ");
                push_decimal(&mut text, *got);
                text.append(" got");
                text
            },
            GraphParseError::VertexParseError(_) => String::from_str("Fail to parse vertex number"),
            GraphParseError::ValueParseError(error) => error.to_string(),
            GraphParseError::VertexNotExists(error) => error.to_string(),
        }
    }
}

/// `text` is what `value` is displayed as.
pub open spec fn shows<T: Display>(value: T, text: Seq<char>) -> bool {
    exists|shown: String| shown@ == text && #[trigger] to_string_from_display_ensures::<T>(
        &value,
        shown,
    )
}

/// White space: the characters that the ends of a line are stripped of.
pub open spec fn is_space(c: char) -> bool {
    let code = c as u32;
    ||| 0x09 <= code <= 0x0D
    ||| code == 0x20
    ||| code == 0x85
    ||| code == 0xA0
    ||| code == 0x1680
    ||| 0x2000 <= code <= 0x200A
    ||| code == 0x2028
    ||| code == 0x2029
    ||| code == 0x202F
    ||| code == 0x205F
    ||| code == 0x3000
}

/// Whether `c` is white space.
pub fn is_whitespace(c: char) -> (space: bool)
    ensures
        space == is_space(c),
{
    let code = c as u32;
    (0x09 <= code && code <= 0x0D) || code == 0x20 || code == 0x85 || code == 0xA0 || code
        == 0x1680 || (0x2000 <= code && code <= 0x200A) || code == 0x2028 || code == 0x2029
        || code == 0x202F || code == 0x205F || code == 0x3000
}

/// `text` without the white space at its start.
pub open spec fn trim_start(text: Seq<char>) -> Seq<char>
    decreases text.len(),
{
    if text.len() > 0 && is_space(text[0]) {
        trim_start(text.drop_first())
    } else {
        text
    }
}

/// `text` without the white space at its end.
pub open spec fn trim_end(text: Seq<char>) -> Seq<char>
    decreases text.len(),
{
    if text.len() > 0 && is_space(text.last()) {
        trim_end(text.drop_last())
    } else {
        text
    }
}

/// `text` without the white space at both its ends.
pub open spec fn trimmed(text: Seq<char>) -> Seq<char> {
    trim_end(trim_start(text))
}

/// Where the part of `text` from `from` up to `to` starts and ends once the
/// white space at both its ends is left out.
pub fn trim_bounds(text: &Vec<char>, from: usize, to: usize) -> (bounds: (usize, usize))
    requires
        from <= to <= text.len(),
    ensures
        from <= bounds.0 <= bounds.1 <= to,
        text@.subrange(bounds.0 as int, bounds.1 as int) == trimmed(
            text@.subrange(from as int, to as int),
        ),
{
    let mut start: usize = from;
    while start < to && is_whitespace(text[start])
        invariant
            from <= start <= to <= text.len(),
            trim_start(text@.subrange(from as int, to as int)) == trim_start(
                text@.subrange(start as int, to as int),
            ),
        decreases to - start,
    {
        proof {
            let part = text@.subrange(start as int, to as int);
            assert(part[0] == text@[start as int]);
            assert(part.drop_first() =~= text@.subrange(start as int + 1, to as int));
        }
        start += 1;
    }
    proof {
        let part = text@.subrange(start as int, to as int);
        if start < to {
            assert(part[0] == text@[start as int]);
        }
        assert(trim_start(part) == part);
    }
    let mut end: usize = to;
    while end > start && is_whitespace(text[end - 1])
        invariant
            start <= end <= to <= text.len(),
            trim_end(text@.subrange(start as int, to as int)) == trim_end(
                text@.subrange(start as int, end as int),
            ),
        decreases end - start,
    {
        proof {
            let part = text@.subrange(start as int, end as int);
            assert(part.last() == text@[end as int - 1]);
            assert(part.drop_last() =~= text@.subrange(start as int, end as int - 1));
        }
        end -= 1;
    }
    proof {
        let part = text@.subrange(start as int, end as int);
        if end > start {
            assert(part.last() == text@[end as int - 1]);
        }
        assert(trim_end(part) == part);
    }
    (start, end)
}

/// How many characters of `text` stand before the first `mark` in it; all of
/// them where it holds none.
pub open spec fn first_of(text: Seq<char>, mark: char) -> int
    decreases text.len(),
{
    if text.len() == 0 || text[0] == mark {
        0
    } else {
        1 + first_of(text.drop_first(), mark)
    }
}

/// How many characters of `text` stand before its first space.
pub open spec fn first_space(text: Seq<char>) -> int {
    first_of(text, ' ')
}

/// The place of the first `mark` in the part of `text` from `from` up to
/// `to`; `to` where it holds none.
pub fn find_char(text: &Vec<char>, from: usize, to: usize, mark: char) -> (at: usize)
    requires
        from <= to <= text.len(),
    ensures
        from <= at <= to,
        at - from == first_of(text@.subrange(from as int, to as int), mark),
{
    let mut at: usize = from;
    while at < to && text[at] != mark
        invariant
            from <= at <= to <= text.len(),
            first_of(text@.subrange(from as int, to as int), mark) == at - from + first_of(
                text@.subrange(at as int, to as int),
                mark,
            ),
        decreases to - at,
    {
        proof {
            let part = text@.subrange(at as int, to as int);
            assert(part[0] == text@[at as int]);
            assert(part.drop_first() =~= text@.subrange(at as int + 1, to as int));
        }
        at += 1;
    }
    proof {
        let part = text@.subrange(at as int, to as int);
        if at < to {
            assert(part[0] == text@[at as int]);
        }
    }
    at
}

/// What a line in the first part of a text says: `None` where it ends that
/// part, being empty or `#`; else the vertex that it describes, by its
/// identifier and the text of its value, which is all that follows the first
/// space.
pub open spec fn vertex_line<E>(line: Seq<char>) -> Result<
    Option<(usize, Seq<char>)>,
    GraphParseError<E>,
> {
    let content = trimmed(line);
    let space = first_space(content);
    if content.len() == 0 || content == seq!['#'] {
        Ok(None)
    } else if space == content.len() {
        Err(GraphParseError::DataError(2, 1))
    } else {
        match parse_id(content.take(space)) {
            Err(error) => Err(GraphParseError::VertexParseError(error)),
            Ok(id) => Ok(Some((id, content.skip(space + 1)))),
        }
    }
}

/// What a line in the second part of a text says: `None` where it ends that
/// part, being empty; else the edge that it describes, by the identifiers
/// that stand before its first space and after it, up to the second space.
pub open spec fn edge_line<E>(line: Seq<char>) -> Result<Option<(usize, usize)>, GraphParseError<E>> {
    let content = trimmed(line);
    if content.len() == 0 {
        Ok(None)
    } else if first_space(content) == content.len() {
        Err(GraphParseError::DataError(2, 1))
    } else {
        match parse_id(edge_tokens(content).0) {
            Err(error) => Err(GraphParseError::VertexParseError(error)),
            Ok(from) => match parse_id(edge_tokens(content).1) {
                Err(error) => Err(GraphParseError::VertexParseError(error)),
                Ok(to) => Ok(Some((from, to))),
            },
        }
    }
}

/// Reads the part of `text` from `from` up to `to` as a line of the first
/// part of a text.
pub fn read_vertex_line<E>(text: &Vec<char>, from: usize, to: usize) -> (result: Result<
    Option<(usize, String)>,
    GraphParseError<E>,
>)
    requires
        from <= to <= text.len(),
    ensures
        match result {
            Ok(Some((id, value))) => vertex_line::<E>(text@.subrange(from as int, to as int))
                == Ok::<Option<(usize, Seq<char>)>, GraphParseError<E>>(Some((id, value@))),
            Ok(None) => vertex_line::<E>(text@.subrange(from as int, to as int)) == Ok::<
                Option<(usize, Seq<char>)>,
                GraphParseError<E>,
            >(None),
            Err(error) => vertex_line::<E>(text@.subrange(from as int, to as int)) == Err::<
                Option<(usize, Seq<char>)>,
                GraphParseError<E>,
            >(error),
        },
{
    let (start, end) = trim_bounds(text, from, to);
    let ghost content = text@.subrange(start as int, end as int);
    if start == end {
        return Ok(None);
    }
    if end - start == 1 && text[start] == '#' {
        proof {
            assert(content =~= seq!['#']);
        }
        return Ok(None);
    }
    proof {
        if content == seq!['#'] {
            assert(content.len() == 1);
            assert(content[0] == text@[start as int]);
        }
    }
    let space = find_char(text, start, end, ' ');
    if space == end {
        return Err(GraphParseError::DataError(2, 1));
    }
    proof {
        assert(content.take(space - start) =~= text@.subrange(start as int, space as int));
        assert(content.skip(space - start + 1) =~= text@.subrange(space as int + 1, end as int));
    }
    match read_id(text, start, space) {
        Err(error) => Err(GraphParseError::VertexParseError(error)),
        Ok(id) => Ok(Some((id, string_of(text, space + 1, end)))),
    }
}

/// Where the two identifiers of a line of edges stand in `content`: the
/// first before the first space, the second after it, up to the second space.
pub open spec fn edge_tokens(content: Seq<char>) -> (Seq<char>, Seq<char>) {
    let space = first_space(content);
    let rest = content.skip(space + 1);
    (content.take(space), rest.take(first_space(rest)))
}

/// Finds the two identifiers of a line of edges in the part of `text` from
/// `start` up to `end`, which holds a space at `space`, the first one.
fn second_token(text: &Vec<char>, start: usize, space: usize, end: usize) -> (second: usize)
    requires
        start <= space < end <= text.len(),
        space - start == first_space(text@.subrange(start as int, end as int)),
    ensures
        space < second <= end,
        edge_tokens(text@.subrange(start as int, end as int)) == (
            text@.subrange(start as int, space as int),
            text@.subrange(space as int + 1, second as int),
        ),
{
    let second = find_char(text, space + 1, end, ' ');
    proof {
        let content = text@.subrange(start as int, end as int);
        let rest = content.skip(space - start + 1);
        assert(content.take(space - start) =~= text@.subrange(start as int, space as int));
        assert(rest =~= text@.subrange(space as int + 1, end as int));
        assert(rest.take(second - space - 1) =~= text@.subrange(space as int + 1, second as int));
    }
    second
}

/// Reads the part of `text` from `from` up to `to` as a line of the second
/// part of a text.
pub fn read_edge_line<E>(text: &Vec<char>, from: usize, to: usize) -> (result: Result<
    Option<(usize, usize)>,
    GraphParseError<E>,
>)
    requires
        from <= to <= text.len(),
    ensures
        result == edge_line::<E>(text@.subrange(from as int, to as int)),
{
    let (start, end) = trim_bounds(text, from, to);
    if start == end {
        return Ok(None);
    }
    let space = find_char(text, start, end, ' ');
    if space == end {
        return Err(GraphParseError::DataError(2, 1));
    }
    let second = second_token(text, start, space, end);
    match read_id(text, start, space) {
        Err(error) => Err(GraphParseError::VertexParseError(error)),
        Ok(vertex_from) => match read_id(text, space + 1, second) {
            Err(error) => Err(GraphParseError::VertexParseError(error)),
            Ok(vertex_to) => Ok(Some((vertex_from, vertex_to))),
        },
    }
}

} // verus!
