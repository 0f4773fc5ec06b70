use std::collections::HashSet;
use trivial_graph::{Graph, VertexNotExistsError};

fn diamond() -> Graph<String> {
    let mut graph = Graph::new();
    graph.add_vertex(1, "a".to_string());
    graph.add_vertex(2, "b".to_string());
    graph.add_vertex(3, "c".to_string());
    graph.add_vertex(4, "d".to_string());
    graph.add_edge(1, 2).unwrap();
    graph.add_edge(1, 3).unwrap();
    graph.add_edge(2, 4).unwrap();
    graph.add_edge(3, 4).unwrap();
    graph
}

#[test]
fn add_vertex_then_lookup() {
    let mut graph = Graph::new();
    graph.add_vertex(1, "node".to_string());
    assert_eq!(graph.get_vertices_ids().len(), 1);
    assert_eq!(graph.get_neighbours(1), Some(HashSet::new()));
    let vertex = graph.get_vertex(1).unwrap();
    assert_eq!(vertex.id, 1);
    assert_eq!(vertex.value, "node".to_string());
    assert!(graph.get_vertex(10).is_none());
    assert!(graph.get_neighbours(10).is_none());
}

#[test]
fn new_graph_is_empty() {
    let graph: Graph<u8> = Graph::new();
    assert!(graph.get_vertices_ids().is_empty());
    assert!(graph.get_vertex(0).is_none());
    assert!(graph.get_neighbours(0).is_none());
}

#[test]
fn absent_vertex_is_reported_absent_by_both_lookups() {
    let graph = diamond();
    for id in [0usize, 5, 17, usize::MAX] {
        assert!(graph.get_vertex(id).is_none());
        assert!(graph.get_neighbours(id).is_none());
    }
}

#[test]
fn vertex_without_out_edges_has_empty_neighbours() {
    let graph = diamond();
    assert_eq!(graph.get_neighbours(4), Some(HashSet::new()));
    assert_ne!(graph.get_neighbours(4), None);
}

#[test]
fn add_vertex_replaces_value_and_keeps_edges() {
    let mut graph = diamond();
    graph.add_vertex(1, "again".to_string());
    assert_eq!(graph.get_vertex(1).unwrap().value, "again");
    assert_eq!(graph.get_neighbours(1), Some(HashSet::from([2, 3])));
    assert_eq!(graph.get_neighbours(2), Some(HashSet::from([4])));
    assert_eq!(graph.get_vertices_ids(), HashSet::from([1, 2, 3, 4]));
}

#[test]
fn remove_vertex_of_absent_vertex_changes_nothing() {
    let mut graph = Graph::new();
    graph.add_vertex(1, "node".to_string());
    graph.remove_vertex(2);
    assert_eq!(graph.get_vertices_ids().len(), 1);
    graph.remove_vertex(1);
    assert_eq!(graph.get_vertices_ids().len(), 0);
}

#[test]
fn remove_vertex_drops_edges_in_both_directions() {
    let mut graph = diamond();
    graph.add_edge(4, 1).unwrap();
    graph.remove_vertex(4);
    assert_eq!(graph.get_vertices_ids(), HashSet::from([1, 2, 3]));
    assert_eq!(graph.get_neighbours(2), Some(HashSet::new()));
    assert_eq!(graph.get_neighbours(3), Some(HashSet::new()));
    assert_eq!(graph.get_neighbours(1), Some(HashSet::from([2, 3])));
    assert!(graph.get_neighbours(4).is_none());
    graph.add_vertex(4, "back".to_string());
    assert_eq!(graph.get_neighbours(4), Some(HashSet::new()));
    assert_eq!(graph.get_neighbours(2), Some(HashSet::new()));
}

#[test]
fn add_edge_needs_both_vertices() {
    let mut graph = Graph::new();
    graph.add_vertex(1, "node".to_string());
    graph.add_vertex(2, "node2".to_string());
    assert!(graph.add_edge(1, 2).is_ok());
    assert!(graph.add_edge(1, 3).is_err());
    assert!(graph.add_edge(3, 2).is_err());
    assert_eq!(graph.add_edge(1, 3).unwrap_err().vertex, 3);
    assert_eq!(graph.add_edge(3, 2).unwrap_err().vertex, 3);
    assert_eq!(graph.add_edge(7, 9).unwrap_err().vertex, 7);
    assert_eq!(graph.get_neighbours(1), Some(HashSet::from([2])));
    assert_eq!(graph.get_vertices_ids(), HashSet::from([1, 2]));
}

#[test]
fn add_edge_twice_is_as_once() {
    let mut graph = diamond();
    assert!(graph.add_edge(1, 2).is_ok());
    assert!(graph.add_edge(1, 2).is_ok());
    assert_eq!(graph.get_neighbours(1), Some(HashSet::from([2, 3])));
}

#[test]
fn self_loop_is_an_edge() {
    let mut graph = diamond();
    graph.add_edge(2, 2).unwrap();
    assert_eq!(graph.get_neighbours(2), Some(HashSet::from([2, 4])));
    graph.remove_edge(2, 2);
    assert_eq!(graph.get_neighbours(2), Some(HashSet::from([4])));
}

#[test]
fn remove_edge_leaves_vertex_with_empty_neighbours() {
    let mut graph = Graph::new();
    graph.add_vertex(1, "node".to_string());
    graph.add_vertex(2, "node2".to_string());
    assert!(graph.add_edge(1, 2).is_ok());
    graph.remove_edge(1, 2);
    assert_eq!(graph.get_neighbours(1), Some(HashSet::new()));
}

#[test]
fn remove_edge_of_absent_edge_changes_nothing() {
    let mut graph = diamond();
    graph.remove_edge(4, 1);
    graph.remove_edge(1, 4);
    graph.remove_edge(9, 1);
    assert_eq!(graph.get_neighbours(1), Some(HashSet::from([2, 3])));
    assert_eq!(graph.get_neighbours(4), Some(HashSet::new()));
    assert_eq!(graph.get_vertices_ids(), HashSet::from([1, 2, 3, 4]));
}

#[test]
fn get_vertices_ids_lists_all() {
    let mut graph = Graph::new();
    graph.add_vertex(1, "node".to_string());
    graph.add_vertex(2, "node2".to_string());
    assert_eq!(graph.get_vertices_ids(), HashSet::from([1, 2]));
}

#[test]
fn successors_lists_each_once() {
    let graph = diamond();
    let mut listed = graph.successors(1);
    listed.sort_unstable();
    assert_eq!(listed, vec![2, 3]);
    assert!(graph.successors(4).is_empty());
    assert!(graph.successors(40).is_empty());
}

#[test]
fn vertex_not_exists_error_says_which() {
    let error = VertexNotExistsError { vertex: 305 };
    assert_eq!(error.to_string(), "Vertex 305 not exists in graph");
    let error = VertexNotExistsError { vertex: 0 };
    assert_eq!(error.to_string(), "Vertex 0 not exists in graph");
    let error = VertexNotExistsError { vertex: usize::MAX };
    assert_eq!(error.to_string(), format!("Vertex {} not exists in graph", usize::MAX));
}

#[test]
fn bfs_from_a_vertex() {
    let mut graph = Graph::new();
    graph.add_vertex(1, "node".to_string());
    graph.add_vertex(2, "node2".to_string());
    graph.add_vertex(3, "node3".to_string());
    graph.add_vertex(4, "node4".to_string());
    assert!(graph.add_edge(1, 2).is_ok());
    assert!(graph.add_edge(1, 3).is_ok());
    assert!(graph.add_edge(2, 4).is_ok());
    let mut visited_vertices = Vec::new();
    let trace = graph.bfs(1, |v| visited_vertices.push(v.id));
    assert_eq!(visited_vertices.len(), 4);
    assert_eq!(visited_vertices[0], 1);
    assert_eq!(visited_vertices[3], 4);
    assert_eq!(trace, visited_vertices);
}

#[test]
fn bfs_of_diamond_passes_nearer_vertices_first() {
    let graph = diamond();
    let mut visited_vertices = Vec::new();
    graph.bfs(1, |v| visited_vertices.push(v.id));
    assert_eq!(visited_vertices.len(), 4);
    assert_eq!(visited_vertices[0], 1);
    assert_eq!(HashSet::from([visited_vertices[1], visited_vertices[2]]), HashSet::from([2, 3]));
    assert_eq!(visited_vertices[3], 4);
}

#[test]
fn bfs_passes_only_what_is_reached() {
    let graph = diamond();
    let mut visited_vertices = Vec::new();
    graph.bfs(2, |v| visited_vertices.push(v.id));
    assert_eq!(visited_vertices, vec![2, 4]);
}
