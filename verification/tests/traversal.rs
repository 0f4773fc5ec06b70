use std::collections::HashSet;
use trivial_graph::visitors::graph_visitor::start_vertices;
use trivial_graph::{
    BfsVisitor, DfsVisitor, Graph, GraphVertex, GraphVisitor, TopologicalSort, VisitOrder,
};

fn sample() -> Graph<String> {
    let mut graph = Graph::new();
    graph.add_vertex(1, "node".to_string());
    graph.add_vertex(2, "node2".to_string());
    graph.add_vertex(3, "node3".to_string());
    graph.add_vertex(4, "node4".to_string());
    graph.add_vertex(5, "node5".to_string());
    assert!(graph.add_edge(1, 2).is_ok());
    assert!(graph.add_edge(1, 3).is_ok());
    assert!(graph.add_edge(2, 4).is_ok());
    assert!(graph.add_edge(3, 4).is_ok());
    assert!(graph.add_edge(5, 1).is_ok());
    graph
}

fn diamond() -> Graph<String> {
    let mut graph = Graph::new();
    graph.add_vertex(1, "a".to_string());
    graph.add_vertex(2, "b".to_string());
    graph.add_vertex(3, "c".to_string());
    graph.add_vertex(4, "d".to_string());
    graph.add_edge(1, 2).unwrap();
    graph.add_edge(1, 3).unwrap();
    graph.add_edge(2, 4).unwrap();
    graph.add_edge(3, 4).unwrap();
    graph
}

/// A graph of `count` vertices in which `id` leads to `id * 2 + 1` and
/// `id * 2 + 2`, and, where `cycle` is set, the last vertex back to the first.
fn tree(count: usize, cycle: bool) -> Graph<usize> {
    let mut graph = Graph::new();
    for id in 0..count {
        graph.add_vertex(id, id * 10);
    }
    for id in 0..count {
        for to in [id * 2 + 1, id * 2 + 2] {
            if to < count {
                graph.add_edge(id, to).unwrap();
            }
        }
    }
    if cycle {
        graph.add_edge(count - 1, 0).unwrap();
    }
    graph
}

fn place(order: &[usize], id: usize) -> usize {
    order.iter().position(|&other| other == id).unwrap()
}

const ORDERS: [VisitOrder; 3] =
    [VisitOrder::Undefined, VisitOrder::NumbersAscending, VisitOrder::TopologicalSort];

#[test]
fn bfs_visitor_keeps_state_between_runs() {
    let graph = sample();
    let mut visited_vertices = Vec::new();
    let mut callback = |v: &GraphVertex<String>| {
        visited_vertices.push(v.id);
    };
    let mut visitor = BfsVisitor::new(&graph);
    visitor.visit(2, &mut callback);
    visitor.visit(1, &mut callback);
    visitor.visit(5, &mut callback);
    assert_eq!(visited_vertices, vec![2, 4, 1, 3, 5]);

    visited_vertices.clear();
    visitor.clear();
    let mut callback = |v: &GraphVertex<String>| {
        visited_vertices.push(v.id);
    };
    let trace = visitor.visit_all(VisitOrder::TopologicalSort, &mut callback);
    assert_eq!(visited_vertices[4], 4);
    assert_eq!(trace, visited_vertices);

    visited_vertices.clear();
    visitor.clear();
    let mut callback = |v: &GraphVertex<String>| {
        visited_vertices.push(v.id);
    };
    visitor.visit_all(VisitOrder::NumbersAscending, &mut callback);
    assert_eq!(visited_vertices[4], 5);
}

#[test]
fn dfs_visitor_keeps_state_between_runs() {
    let graph = sample();
    let mut visited_vertices = Vec::new();
    let mut callback = |v: &GraphVertex<String>| {
        visited_vertices.push(v.id);
    };
    let mut visitor = DfsVisitor::new(&graph);
    visitor.visit(2, &mut callback);
    visitor.visit(1, &mut callback);
    visitor.visit(5, &mut callback);
    assert_eq!(visited_vertices, vec![2, 4, 1, 3, 5]);

    visited_vertices.clear();
    visitor.clear();
    let mut callback = |v: &GraphVertex<String>| {
        visited_vertices.push(v.id);
    };
    visitor.visit_all(VisitOrder::TopologicalSort, &mut callback);
    assert_eq!(visited_vertices[3], 4);

    visited_vertices.clear();
    visitor.clear();
    let mut callback = |v: &GraphVertex<String>| {
        visited_vertices.push(v.id);
    };
    visitor.visit_all(VisitOrder::NumbersAscending, &mut callback);
    assert_eq!(visited_vertices[4], 5);
}

#[test]
fn bfs_of_diamond_from_its_source() {
    let graph = diamond();
    let mut seen = Vec::new();
    let mut visitor = BfsVisitor::new(&graph);
    let block = visitor.visit(1, &mut |v: &GraphVertex<String>| seen.push(v.id));
    assert_eq!(block, seen);
    assert_eq!(seen[0], 1);
    assert_eq!(HashSet::from([seen[1], seen[2]]), HashSet::from([2, 3]));
    assert_eq!(seen[3], 4);
    assert_eq!(seen.len(), 4);
}

#[test]
fn topological_visit_all_of_diamond_ends_with_its_sink() {
    let graph = diamond();
    let mut seen = Vec::new();
    let mut visitor = BfsVisitor::new(&graph);
    visitor.visit_all(VisitOrder::TopologicalSort, |v: &GraphVertex<String>| seen.push(v.id));
    assert_eq!(seen.len(), 4);
    assert_eq!(seen[0], 1);
    assert_eq!(seen[3], 4);
}

#[test]
fn visit_of_a_vertex_passed_before_does_nothing() {
    let graph = sample();
    let mut calls = 0;
    let mut visitor = BfsVisitor::new(&graph);
    assert_eq!(visitor.visit(1, &mut |_: &GraphVertex<String>| calls += 1).len(), 4);
    assert_eq!(calls, 4);
    assert!(visitor.visit(1, &mut |_: &GraphVertex<String>| calls += 1).is_empty());
    assert!(visitor.visit(4, &mut |_: &GraphVertex<String>| calls += 1).is_empty());
    assert_eq!(calls, 4);
    let mut visitor = DfsVisitor::new(&graph);
    assert_eq!(visitor.visit(1, &mut |_: &GraphVertex<String>| calls += 1).len(), 4);
    assert!(visitor.visit(3, &mut |_: &GraphVertex<String>| calls += 1).is_empty());
    assert_eq!(calls, 8);
}

#[test]
fn clear_forgets_what_was_passed() {
    let graph = sample();
    let mut visitor = DfsVisitor::new(&graph);
    assert_eq!(visitor.visit(2, &mut |_: &GraphVertex<String>| {}), vec![2, 4]);
    assert!(visitor.visit(4, &mut |_: &GraphVertex<String>| {}).is_empty());
    visitor.clear();
    assert_eq!(visitor.visit(4, &mut |_: &GraphVertex<String>| {}), vec![4]);
    assert_eq!(visitor.visit(2, &mut |_: &GraphVertex<String>| {}), vec![2]);
    assert_eq!(visitor.get_graph().get_vertices_ids().len(), 5);
}

#[test]
fn visit_all_passes_each_vertex_once() {
    for cycle in [false, true] {
        let graph = tree(64, cycle);
        for order in ORDERS {
            let mut seen = Vec::new();
            let mut visitor = BfsVisitor::new(&graph);
            visitor.visit(5, &mut |_: &GraphVertex<usize>| {});
            let trace = visitor.visit_all(order, |v: &GraphVertex<usize>| seen.push(v.id));
            assert_eq!(seen.len(), 64);
            assert_eq!(seen.iter().copied().collect::<HashSet<usize>>().len(), 64);
            assert_eq!(trace, seen);

            let mut seen = Vec::new();
            let mut visitor = DfsVisitor::new(&graph);
            let trace = visitor.visit_all(order, |v: &GraphVertex<usize>| seen.push(v.id));
            assert_eq!(seen.len(), 64);
            assert_eq!(seen.iter().copied().collect::<HashSet<usize>>().len(), 64);
            assert_eq!(trace, seen);
        }
    }
}

#[test]
fn visit_all_of_graph_without_edges_or_vertices() {
    let empty: Graph<u8> = Graph::new();
    let mut visitor = DfsVisitor::new(&empty);
    for order in ORDERS {
        assert!(visitor.visit_all(order, |_: &GraphVertex<u8>| panic!("no vertex")).is_empty());
    }
    let mut lone: Graph<u8> = Graph::new();
    lone.add_vertex(9, 1);
    lone.add_vertex(3, 2);
    lone.add_vertex(6, 3);
    let mut visitor = BfsVisitor::new(&lone);
    let trace = visitor.visit_all(VisitOrder::NumbersAscending, |_: &GraphVertex<u8>| {});
    assert_eq!(trace, vec![3, 6, 9]);
}

#[test]
fn callback_is_given_the_vertex_with_its_value() {
    let graph = tree(10, false);
    let mut visitor = DfsVisitor::new(&graph);
    let mut pairs = Vec::new();
    visitor.visit_all(VisitOrder::Undefined, |v: &GraphVertex<usize>| pairs.push((v.id, v.value)));
    assert_eq!(pairs.len(), 10);
    for (id, value) in pairs {
        assert_eq!(value, id * 10);
    }
}

#[test]
fn bfs_passes_nearer_vertices_first() {
    let graph = tree(63, true);
    let mut visitor = BfsVisitor::new(&graph);
    let block = visitor.visit(0, &mut |_: &GraphVertex<usize>| {});
    assert_eq!(block.len(), 63);
    let depth = |id: usize| (usize::BITS - (id + 1).leading_zeros()) as usize;
    for pair in block.windows(2) {
        assert!(depth(pair[0]) <= depth(pair[1]));
    }
}

#[test]
fn dfs_passes_what_a_vertex_reaches_right_after_it() {
    let graph = tree(63, false);
    let mut visitor = DfsVisitor::new(&graph);
    let block = visitor.visit(0, &mut |_: &GraphVertex<usize>| {});
    assert_eq!(block.len(), 63);
    assert_eq!(block[0], 0);
    for (at, &id) in block.iter().enumerate() {
        let mut below = HashSet::new();
        let mut open = vec![id];
        while let Some(next) = open.pop() {
            if below.insert(next) {
                open.extend(graph.successors(next));
            }
        }
        let after: HashSet<usize> = block[at..at + below.len()].iter().copied().collect();
        assert_eq!(after, below);
    }
}

#[test]
fn topological_order_puts_no_vertex_before_a_predecessor() {
    let mut graph = tree(40, false);
    graph.add_edge(3, 39).unwrap();
    graph.add_edge(38, 39).unwrap();
    graph.add_edge(1, 2).unwrap();
    let order = TopologicalSort::new(&graph).create_order();
    assert_eq!(order.len(), 40);
    for from in 0..40usize {
        for to in graph.successors(from) {
            assert!(place(&order, from) < place(&order, to));
        }
    }
    let starts = start_vertices(&graph, VisitOrder::TopologicalSort);
    for from in 0..40usize {
        for to in graph.successors(from) {
            assert!(place(&starts, from) < place(&starts, to));
        }
    }
}

#[test]
fn topological_order_of_graph_with_cycle_lists_each_vertex_once() {
    let mut graph = tree(20, true);
    graph.add_edge(7, 7).unwrap();
    let mut order = TopologicalSort::new(&graph).create_order();
    order.sort_unstable();
    assert_eq!(order, (0..20).collect::<Vec<usize>>());
}

#[test]
fn start_vertices_in_ascending_order_are_sorted() {
    let mut graph: Graph<u8> = Graph::new();
    for id in 0..300usize {
        graph.add_vertex((id * 7919) % 1009, 0);
    }
    let starts = start_vertices(&graph, VisitOrder::NumbersAscending);
    assert_eq!(starts.len(), 300);
    for pair in starts.windows(2) {
        assert!(pair[0] < pair[1]);
    }
    let mut unordered = start_vertices(&graph, VisitOrder::Undefined);
    assert_eq!(unordered.len(), 300);
    unordered.sort_unstable();
    assert_eq!(unordered, starts);
}

#[test]
fn ascending_visit_all_starts_at_the_least_vertex_not_passed() {
    let graph = sample();
    let mut visitor = DfsVisitor::new(&graph);
    let trace = visitor.visit_all(VisitOrder::NumbersAscending, |_: &GraphVertex<String>| {});
    assert_eq!(trace[0], 1);
    assert_eq!(trace[4], 5);
    assert_eq!(place(&trace, 4), 2);
}

/// A graph of `count` vertices in which each leads to the next.
fn chain(count: usize) -> Graph<u8> {
    let mut graph = Graph::new();
    for id in 0..count {
        graph.add_vertex(id, 0);
    }
    for id in 1..count {
        graph.add_edge(id - 1, id).unwrap();
    }
    graph
}

#[test]
fn dfs_walks_a_long_chain() {
    let graph = chain(200_000);
    let mut visitor = DfsVisitor::new(&graph);
    let block = visitor.visit(0, &mut |_: &GraphVertex<u8>| {});
    assert_eq!(block, (0..200_000).collect::<Vec<usize>>());
}

#[test]
fn topological_order_of_a_long_chain() {
    let graph = chain(200_000);
    let order = TopologicalSort::new(&graph).create_order();
    assert_eq!(order, (0..200_000).collect::<Vec<usize>>());
    let mut visitor = BfsVisitor::new(&graph);
    let trace = visitor.visit_all(VisitOrder::TopologicalSort, |_: &GraphVertex<u8>| {});
    assert_eq!(trace, order);
}

#[test]
fn dfs_of_diamond_goes_down_before_it_goes_on() {
    let graph = diamond();
    for _ in 0..20 {
        let mut seen = Vec::new();
        let mut visitor = DfsVisitor::new(&graph);
        let block = visitor.visit(1, &mut |v: &GraphVertex<String>| seen.push(v.id));
        assert_eq!(block, seen);
        assert!(seen == vec![1, 2, 4, 3] || seen == vec![1, 3, 4, 2]);
    }
}

#[test]
fn dfs_enters_each_vertex_from_one_passed_before() {
    let mut graph = tree(63, true);
    graph.add_edge(5, 40).unwrap();
    graph.add_edge(17, 3).unwrap();
    let mut visitor = DfsVisitor::new(&graph);
    let block = visitor.visit(0, &mut |_: &GraphVertex<usize>| {});
    assert_eq!(block.len(), 63);
    for at in 1..block.len() {
        let entered = (0..at).rev().find(|&from| {
            let mut below = HashSet::new();
            let mut open = vec![block[from]];
            while let Some(next) = open.pop() {
                if !block[..from].contains(&next) && below.insert(next) {
                    open.extend(graph.successors(next));
                }
            }
            below.contains(&block[at])
        });
        let from = entered.unwrap();
        assert!(graph.successors(block[from]).contains(&block[at]));
    }
}

#[test]
fn bfs_passes_vertices_in_the_order_in_which_they_are_found() {
    let mut graph: Graph<u8> = Graph::new();
    for id in 1..=5usize {
        graph.add_vertex(id, 0);
    }
    graph.add_edge(1, 2).unwrap();
    graph.add_edge(1, 3).unwrap();
    graph.add_edge(2, 4).unwrap();
    graph.add_edge(3, 5).unwrap();
    for _ in 0..20 {
        let mut visitor = BfsVisitor::new(&graph);
        let block = visitor.visit(1, &mut |_: &GraphVertex<u8>| {});
        assert!(block == vec![1, 2, 3, 4, 5] || block == vec![1, 3, 2, 5, 4]);
    }
    let wide = tree(63, true);
    let mut visitor = BfsVisitor::new(&wide);
    let block = visitor.visit(0, &mut |_: &GraphVertex<usize>| {});
    let finder = |id: usize| {
        block.iter().position(|&from| wide.successors(from).contains(&id)).unwrap()
    };
    for pair in block[1..].windows(2) {
        assert!(finder(pair[0]) <= finder(pair[1]));
    }
}

#[test]
fn dfs_topological_visit_all_of_sample_has_the_sink_fourth() {
    let graph = sample();
    for _ in 0..20 {
        let mut seen = Vec::new();
        let mut visitor = DfsVisitor::new(&graph);
        visitor.visit_all(VisitOrder::TopologicalSort, |v: &GraphVertex<String>| seen.push(v.id));
        assert_eq!(seen.len(), 5);
        assert_eq!(seen[0], 5);
        assert_eq!(seen[3], 4);
    }
}
