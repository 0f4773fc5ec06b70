use std::collections::HashSet;
use std::num::ParseIntError;
use trivial_graph::decimal::{push_decimal, read_id};
use trivial_graph::text::{find_char, is_whitespace, read_edge_line, read_vertex_line, trim_bounds};
use trivial_graph::{
    Graph, GraphParseError, GraphReader, IdError, VertexNotExistsError, VertexValueParseError,
};

fn read_i32(text: &str) -> Result<Graph<i32>, GraphParseError<ParseIntError>> {
    Graph::parse(text, |value: &str| value.parse::<i32>())
}

fn read_text(text: &str) -> Result<Graph<String>, GraphParseError<()>> {
    Graph::parse(text, |value: &str| Ok::<String, ()>(value.to_string()))
}

fn chars(text: &str) -> Vec<char> {
    text.chars().collect()
}

fn id_of(text: &str) -> Result<usize, IdError> {
    let all = chars(text);
    read_id(&all, 0, all.len())
}

#[test]
fn parse_reads_vertices_and_edges() {
    let graph = read_i32("1 1\n2 2\n#\n1 2\n").unwrap();
    assert_eq!(graph.get_vertices_ids(), HashSet::from([1, 2]));
    assert_eq!(graph.get_neighbours(1), Some(HashSet::from([2])));
    assert_eq!(graph.get_neighbours(2), Some(HashSet::new()));
    assert_eq!(graph.get_vertex(1).unwrap().value, 1);
    assert_eq!(graph.get_vertex(2).unwrap().value, 2);
}

#[test]
fn parse_rejects_bad_value() {
    let error = read_i32("1 1\n2 kek\n#\n1 2\n").unwrap_err();
    assert!(matches!(error, GraphParseError::ValueParseError(_)));
    assert!(!matches!(error, GraphParseError::VertexParseError(_)));
}

#[test]
fn parse_hands_on_what_the_reader_of_values_reported() {
    let error = read_i32("1 1\n2 kek\n#\n1 2\n").unwrap_err();
    match error {
        GraphParseError::ValueParseError(VertexValueParseError(inner)) => {
            assert_eq!(inner, "kek".parse::<i32>().unwrap_err());
        }
        _ => panic!("Incorrect error type"),
    }
}

#[test]
fn parse_rejects_bad_edge_endpoint() {
    let error = read_i32("1 1\n2 2\n#\n1 w\n").unwrap_err();
    assert!(matches!(error, GraphParseError::VertexParseError(IdError::InvalidDigit)));
}

#[test]
fn parse_rejects_bad_edge_start() {
    let error = read_i32("1 1\n2 2\n#\nx 2\n").unwrap_err();
    assert!(matches!(error, GraphParseError::VertexParseError(IdError::InvalidDigit)));
}

#[test]
fn parse_rejects_short_edge_line() {
    let error = read_i32("1 1\n2 2\n#\n1\n").unwrap_err();
    assert!(matches!(error, GraphParseError::DataError(2, 1)));
}

#[test]
fn parse_rejects_short_vertex_line() {
    let error = read_i32("1 1\n2\n#\n").unwrap_err();
    assert!(matches!(error, GraphParseError::DataError(2, 1)));
}

#[test]
fn parse_rejects_bad_vertex_id() {
    let error = read_i32("one 1\n#\n").unwrap_err();
    assert!(matches!(error, GraphParseError::VertexParseError(IdError::InvalidDigit)));
    let error = read_i32("-1 1\n#\n").unwrap_err();
    assert!(matches!(error, GraphParseError::VertexParseError(IdError::InvalidDigit)));
    let error = read_i32("99999999999999999999999999999999999999999 1\n#\n").unwrap_err();
    assert!(matches!(error, GraphParseError::VertexParseError(IdError::PosOverflow)));
}

#[test]
fn parse_rejects_edge_to_unknown_vertex() {
    let error = read_i32("1 1\n2 2\n#\n1 3\n").unwrap_err();
    assert!(matches!(
        error,
        GraphParseError::VertexNotExists(VertexNotExistsError { vertex: 3 })
    ));
    let error = read_i32("1 1\n2 2\n#\n4 1\n").unwrap_err();
    assert!(matches!(
        error,
        GraphParseError::VertexNotExists(VertexNotExistsError { vertex: 4 })
    ));
    let error = read_i32("1 1\n2 2\n#\n4 5\n").unwrap_err();
    assert!(matches!(
        error,
        GraphParseError::VertexNotExists(VertexNotExistsError { vertex: 4 })
    ));
}

#[test]
fn parse_reports_the_first_line_that_fails() {
    let error = read_i32("1 kek\n2\n#\n").unwrap_err();
    assert!(matches!(error, GraphParseError::ValueParseError(_)));
    let error = read_i32("1\n2 kek\n#\n").unwrap_err();
    assert!(matches!(error, GraphParseError::DataError(2, 1)));
    let error = read_i32("1 1\n#\n1 1\n1 2\nx\n").unwrap_err();
    assert!(matches!(error, GraphParseError::VertexNotExists(_)));
}

#[test]
fn parse_takes_the_rest_of_the_line_as_value() {
    let graph = read_text("1 a b  c\n2  x\n#\n").unwrap();
    assert_eq!(graph.get_vertex(1).unwrap().value, "a b  c");
    assert_eq!(graph.get_vertex(2).unwrap().value, " x");
}

#[test]
fn parse_strips_white_space_from_the_ends_of_a_line() {
    let graph = read_text("  1 a \t\r\n\u{a0}2 b\u{2003}\n # \n\t1 2  \n").unwrap();
    assert_eq!(graph.get_vertex(1).unwrap().value, "a");
    assert_eq!(graph.get_vertex(2).unwrap().value, "b");
    assert_eq!(graph.get_neighbours(1), Some(HashSet::from([2])));
}

#[test]
fn parse_ignores_further_tokens_of_an_edge_line() {
    let graph = read_text("1 a\n2 b\n#\n1 2 and more\n").unwrap();
    assert_eq!(graph.get_neighbours(1), Some(HashSet::from([2])));
}

#[test]
fn parse_rejects_two_spaces_between_edge_ends() {
    let error = read_text("1 a\n2 b\n#\n1  2\n").unwrap_err();
    assert!(matches!(error, GraphParseError::VertexParseError(IdError::Empty)));
}

#[test]
fn parse_ends_vertices_at_empty_line_or_end() {
    let graph = read_text("1 a\n2 b\n\n1 2\n").unwrap();
    assert_eq!(graph.get_neighbours(1), Some(HashSet::from([2])));
    let graph = read_text("1 a\n2 b").unwrap();
    assert_eq!(graph.get_vertices_ids(), HashSet::from([1, 2]));
    assert_eq!(graph.get_neighbours(1), Some(HashSet::new()));
    let graph = read_text("").unwrap();
    assert!(graph.get_vertices_ids().is_empty());
    let graph = read_text("#").unwrap();
    assert!(graph.get_vertices_ids().is_empty());
}

#[test]
fn parse_ends_edges_at_empty_line() {
    let graph = read_text("1 a\n2 b\n#\n1 2\n\n2 1\nthis is not read\n").unwrap();
    assert_eq!(graph.get_neighbours(1), Some(HashSet::from([2])));
    assert_eq!(graph.get_neighbours(2), Some(HashSet::new()));
}

#[test]
fn parse_takes_hash_among_edges_as_a_short_line() {
    let error = read_text("1 a\n#\n#\n").unwrap_err();
    assert!(matches!(error, GraphParseError::DataError(2, 1)));
}

#[test]
fn parse_keeps_the_last_value_of_a_vertex_described_twice() {
    let graph = read_i32("1 10\n1 11\n#\n1 1\n").unwrap();
    assert_eq!(graph.get_vertex(1).unwrap().value, 11);
    assert_eq!(graph.get_neighbours(1), Some(HashSet::from([1])));
    let error = read_i32("1 x\n1 11\n#\n").unwrap_err();
    assert!(matches!(error, GraphParseError::ValueParseError(_)));
}

#[test]
fn parse_accepts_plus_before_an_id() {
    let graph = read_text("+7 a\n#\n+7 7\n").unwrap();
    assert_eq!(graph.get_neighbours(7), Some(HashSet::from([7])));
}

#[test]
fn reader_takes_lines_one_by_one() {
    let parse_value = |value: &str| value.parse::<i32>();
    let mut reader: GraphReader<i32> = GraphReader::new();
    assert!(matches!(reader.feed("1 1\n", &parse_value), Ok(true)));
    assert!(matches!(reader.feed("2 2\n", &parse_value), Ok(true)));
    assert!(matches!(reader.feed("#\n", &parse_value), Ok(true)));
    assert!(matches!(reader.feed("1 2\n", &parse_value), Ok(true)));
    assert!(matches!(reader.feed("2 9\n", &parse_value), Err(GraphParseError::VertexNotExists(_))));
    assert!(matches!(reader.feed("", &parse_value), Ok(false)));
    assert!(matches!(reader.feed("1 1\n", &parse_value), Ok(false)));
    let graph = reader.finish();
    assert_eq!(graph.get_neighbours(1), Some(HashSet::from([2])));
    assert_eq!(graph.get_neighbours(2), Some(HashSet::new()));
}

#[test]
fn read_id_agrees_with_the_standard_parse() {
    let samples = [
        "", "0", "7", "42", "007", "+", "+0", "+15", "++1", "-", "-0", "-5", "1 ", " 1", "1_0",
        "12a", "a12", "٣", "1.5", "18446744073709551615", "18446744073709551616",
        "4294967295", "4294967296", "99999999999999999999", "9999999999999999999x",
        "x9999999999999999999999", "+18446744073709551615", "000000000000000000000000001",
    ];
    for sample in samples {
        let expected = sample.parse::<usize>();
        match (id_of(sample), expected) {
            (Ok(got), Ok(wanted)) => assert_eq!(got, wanted, "{:?}", sample),
            (Err(kind), Err(error)) => {
                let wanted = match error.kind() {
                    std::num::IntErrorKind::Empty => IdError::Empty,
                    std::num::IntErrorKind::InvalidDigit => IdError::InvalidDigit,
                    std::num::IntErrorKind::PosOverflow => IdError::PosOverflow,
                    other => panic!("{:?} for {:?}", other, sample),
                };
                assert_eq!(kind, wanted, "{:?}", sample);
            }
            (got, wanted) => panic!("{:?}: {:?} against {:?}", sample, got, wanted),
        }
    }
    for n in 0..2000usize {
        assert_eq!(id_of(&n.to_string()), Ok(n));
    }
    assert_eq!(id_of(&usize::MAX.to_string()), Ok(usize::MAX));
}

#[test]
fn read_id_reads_a_part_of_the_text() {
    let all = chars("ab123cd");
    assert_eq!(read_id(&all, 2, 5), Ok(123));
    assert_eq!(read_id(&all, 2, 6), Err(IdError::InvalidDigit));
    assert_eq!(read_id(&all, 3, 3), Err(IdError::Empty));
}

#[test]
fn push_decimal_agrees_with_the_standard_display() {
    for n in [0usize, 1, 9, 10, 11, 99, 100, 101, 12345, 1000000, usize::MAX - 1, usize::MAX] {
        let mut out = String::from("n=");
        push_decimal(&mut out, n);
        assert_eq!(out, format!("n={}", n));
    }
    for n in 0..1500usize {
        let mut out = String::new();
        push_decimal(&mut out, n);
        assert_eq!(out, n.to_string());
    }
}

#[test]
fn is_whitespace_agrees_with_the_standard_one() {
    for code in 0..=0x10FFFFu32 {
        if let Some(c) = char::from_u32(code) {
            assert_eq!(is_whitespace(c), c.is_whitespace(), "U+{:04X}", code);
        }
    }
}

#[test]
fn trim_bounds_agrees_with_the_standard_trim() {
    for sample in ["", " ", "a", " a", "a ", "  a b  ", "\t\n", "\u{3000}x\u{2028}", " . "] {
        let all = chars(sample);
        let (start, end) = trim_bounds(&all, 0, all.len());
        let got: String = all[start..end].iter().collect();
        assert_eq!(got, sample.trim(), "{:?}", sample);
    }
    let all = chars("xx  ab  yy");
    assert_eq!(trim_bounds(&all, 2, 8), (4, 6));
    assert_eq!(trim_bounds(&all, 2, 4), (4, 4));
}

#[test]
fn find_char_finds_the_first() {
    let all = chars("ab cd ef");
    assert_eq!(find_char(&all, 0, all.len(), ' '), 2);
    assert_eq!(find_char(&all, 3, all.len(), ' '), 5);
    assert_eq!(find_char(&all, 6, all.len(), ' '), 8);
    assert_eq!(find_char(&all, 0, 2, ' '), 2);
    assert_eq!(find_char(&all, 2, 2, ' '), 2);
}

#[test]
fn lines_are_read_as_what_they_describe() {
    let all = chars(" 12 some value \n");
    let line: Result<Option<(usize, String)>, GraphParseError<()>> =
        read_vertex_line(&all, 0, all.len());
    assert!(matches!(line, Ok(Some((12, ref value))) if value == "some value"));
    let all = chars("#");
    let line: Result<Option<(usize, String)>, GraphParseError<()>> =
        read_vertex_line(&all, 0, all.len());
    assert!(matches!(line, Ok(None)));
    let all = chars("3 4 5");
    let line: Result<Option<(usize, usize)>, GraphParseError<()>> =
        read_edge_line(&all, 0, all.len());
    assert!(matches!(line, Ok(Some((3, 4)))));
    let line: Result<Option<(usize, usize)>, GraphParseError<()>> = read_edge_line(&all, 0, 1);
    assert!(matches!(line, Err(GraphParseError::DataError(2, 1))));
    let line: Result<Option<(usize, usize)>, GraphParseError<()>> = read_edge_line(&all, 1, 2);
    assert!(matches!(line, Ok(None)));
}

#[test]
fn to_string_writes_vertices_then_edges() {
    let mut graph: Graph<String> = Graph::new();
    assert_eq!(graph.to_string(), "#\n");
    graph.add_vertex(12, "a b".to_string());
    assert_eq!(graph.to_string(), "12 a b\n#\n");
    graph.add_edge(12, 12).unwrap();
    assert_eq!(graph.to_string(), "12 a b\n#\n12 12\n");
    graph.add_vertex(3, "c".to_string());
    graph.add_edge(3, 12).unwrap();
    let text = graph.to_string();
    let (vertices, edges) = text.split_once("#\n").unwrap();
    let mut vertex_lines: Vec<&str> = vertices.lines().collect();
    vertex_lines.sort_unstable();
    assert_eq!(vertex_lines, vec!["12 a b", "3 c"]);
    let mut edge_lines: Vec<&str> = edges.lines().collect();
    edge_lines.sort_unstable();
    assert_eq!(edge_lines, vec!["12 12", "3 12"]);
    assert!(text.ends_with('\n'));
}

#[test]
fn text_round_trip() {
    let mut graph: Graph<String> = Graph::new();
    graph.add_vertex(1, "a b".to_string());
    graph.add_vertex(20, "c".to_string());
    graph.add_vertex(3, " d".to_string());
    graph.add_vertex(usize::MAX, "e".to_string());
    graph.add_edge(1, 20).unwrap();
    graph.add_edge(20, 3).unwrap();
    graph.add_edge(3, 3).unwrap();
    graph.add_edge(usize::MAX, 1).unwrap();
    let text = graph.to_string();
    let back = read_text(&text).unwrap();
    assert_eq!(back.get_vertices_ids(), graph.get_vertices_ids());
    for id in [1usize, 20, 3, usize::MAX] {
        assert_eq!(back.get_vertex(id).unwrap().value, graph.get_vertex(id).unwrap().value);
        assert_eq!(back.get_neighbours(id), graph.get_neighbours(id));
    }
}

#[test]
fn text_round_trip_with_numbers() {
    let mut graph: Graph<i32> = Graph::new();
    for id in 0..40usize {
        graph.add_vertex(id, 7 - 3 * id as i32);
    }
    for id in 0..40usize {
        graph.add_edge(id, (id * 7 + 1) % 40).unwrap();
        graph.add_edge(id, (id * 3) % 40).unwrap();
    }
    let back = read_i32(&graph.to_string()).unwrap();
    assert_eq!(back.get_vertices_ids(), graph.get_vertices_ids());
    for id in 0..40usize {
        assert_eq!(back.get_vertex(id).unwrap().value, graph.get_vertex(id).unwrap().value);
        assert_eq!(back.get_neighbours(id), graph.get_neighbours(id));
    }
}

#[test]
fn parse_errors_say_what_failed() {
    let error: GraphParseError<ParseIntError> = GraphParseError::DataError(2, 1);
    assert_eq!(error.to_string(), "Incorrect data, 2 items expected, 1 got");
    let error: GraphParseError<ParseIntError> = GraphParseError::VertexParseError(IdError::Empty);
    assert_eq!(error.to_string(), "Fail to parse vertex number");
    let failure = std::io::Error::new(std::io::ErrorKind::Other, "no such luck");
    let error: GraphParseError<ParseIntError> = GraphParseError::IO(failure);
    assert_eq!(error.to_string(), "no such luck");
    let error = read_i32("1 1\n#\n1 8\n").unwrap_err();
    assert_eq!(error.to_string(), "Vertex 8 not exists in graph");
    let error = read_i32("1 kek\n").unwrap_err();
    assert_eq!(error.to_string(), "kek".parse::<i32>().unwrap_err().to_string());
    let inner = VertexValueParseError("kek".parse::<i32>().unwrap_err());
    assert_eq!(inner.to_string(), "kek".parse::<i32>().unwrap_err().to_string());
}

#[test]
fn failures_turn_into_parse_errors() {
    let error: GraphParseError<()> = VertexNotExistsError { vertex: 4 }.into();
    assert!(matches!(error, GraphParseError::VertexNotExists(VertexNotExistsError { vertex: 4 })));
    let error: GraphParseError<()> = IdError::PosOverflow.into();
    assert!(matches!(error, GraphParseError::VertexParseError(IdError::PosOverflow)));
    let inner: VertexValueParseError<u8> = 7u8.into();
    assert_eq!(inner.0, 7);
    let error: GraphParseError<u8> = inner.into();
    assert!(matches!(error, GraphParseError::ValueParseError(VertexValueParseError(7))));
    let failure = std::io::Error::new(std::io::ErrorKind::Other, "no such luck");
    let error: GraphParseError<u8> = failure.into();
    assert!(matches!(error, GraphParseError::IO(_)));
}
