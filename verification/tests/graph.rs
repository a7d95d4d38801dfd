use qproj::dag::DagError;
use qproj::graph::{DependencyGraph, Direction, NodeIdPair};
use qproj::service::ServiceDepInfo;

fn info(id: u64, name: &str) -> ServiceDepInfo {
    ServiceDepInfo {
        type_id: id,
        display_name: name.to_string(),
        is_initialized: false,
        is_service: true,
    }
}

#[test]
fn direction_opposite() {
    assert_eq!(Direction::Outgoing.opposite(), Direction::Incoming);
    assert_eq!(Direction::Incoming.opposite(), Direction::Outgoing);
    assert_eq!(Direction::Outgoing.opposite().opposite(), Direction::Outgoing);
}

#[test]
fn nodes_and_edges() {
    let mut g = DependencyGraph::new();
    g.add_node(1);
    g.add_node(1);
    assert_eq!(g.node_count(), 1);
    g.add_edge(1, 2);
    g.add_edge(1, 3);
    g.add_edge(1, 2);
    assert_eq!(g.nodes(), vec![1, 2, 3]);
    assert!(g.contains_node(3));
    assert!(!g.contains_node(4));
    assert!(g._contains_edge(1, 2));
    assert!(!g._contains_edge(2, 1));
    assert_eq!(g.neighbors(1), vec![2, 3]);
    assert_eq!(g.neighbors(2), Vec::<u64>::new());
    assert_eq!(g._neighbors_directed(2, Direction::Incoming), vec![1]);
    assert_eq!(g._edges(1), vec![(1, 2), (1, 3)]);
    assert_eq!(g._edges_directed(3, Direction::Incoming), vec![(1, 3)]);
    let mut all = g.all_edges();
    all.sort_by_key(|p| (p.0, p.1));
    assert_eq!(all, vec![NodeIdPair(1, 2), NodeIdPair(1, 3)]);
}

#[test]
fn removing_edges_and_nodes() {
    let mut g = DependencyGraph::new();
    g.add_edge(1, 2);
    g.add_edge(2, 3);
    g.add_edge(3, 1);
    assert!(g._remove_edge(1, 2));
    assert!(!g._remove_edge(1, 2));
    assert!(!g._contains_edge(1, 2));
    assert_eq!(g.neighbors(1), Vec::<u64>::new());
    g.remove_node(3);
    assert_eq!(g.node_count(), 2);
    assert!(!g.contains_node(3));
    assert!(g.all_edges().is_empty());
    assert_eq!(g.neighbors(2), Vec::<u64>::new());
}

#[test]
fn topsort_of_a_chain() {
    let mut g = DependencyGraph::new();
    g.add_edge(1, 2);
    g.add_edge(2, 3);
    g.add_node(4);
    let order = g.topsort_graph().unwrap();
    assert_eq!(order, vec![4, 1, 2, 3]);
}

#[test]
fn topsort_reports_a_self_loop_by_id() {
    let mut g = DependencyGraph::new();
    g.add_edge(1, 2);
    g.add_edge(4, 4);
    match g.topsort_graph() {
        Err(DagError::DependencyLoop(name)) => assert_eq!(name, "4"),
        other => panic!("unexpected {other:?}"),
    }
}

#[test]
fn register_service_accepts_a_dag() {
    let mut g = DependencyGraph::new();
    assert_eq!(g.register_service(1, vec![info(2, "B"), info(3, "C")]), Ok(()));
    assert_eq!(g.register_service(2, vec![info(3, "C")]), Ok(()));
    assert_eq!(g.node_count(), 3);
    assert!(g._contains_edge(1, 2) && g._contains_edge(1, 3) && g._contains_edge(2, 3));
    assert_eq!(g.services.get(&3).unwrap().display_name, "C");
}

#[test]
fn register_service_explains_a_cycle() {
    let mut g = DependencyGraph::new();
    assert_eq!(g.register_service(1, vec![info(2, "B")]), Ok(()));
    match g.register_service(2, vec![info(1, "A")]) {
        Err(DagError::DependencyCycle(msg)) => {
            assert!(msg.starts_with("Service has 1 before/after cycle(s):\ncycle 1: `"));
            assert!(
                msg.ends_with(
                    "` must run before itself\n`1`\n ... which must run before `2`\n ... which must run before `1`\n\n"
                ) || msg.ends_with(
                    "` must run before itself\n`2`\n ... which must run before `1`\n ... which must run before `2`\n\n"
                )
            );
        }
        other => panic!("unexpected {other:?}"),
    }
}

#[test]
fn register_service_reports_a_self_dependency() {
    let mut g = DependencyGraph::new();
    assert_eq!(
        g.register_service(7, vec![info(7, "Me")]),
        Err(DagError::DependencyLoop("7".to_string()))
    );
}

#[test]
fn one_node_component_with_a_self_loop_has_one_cycle() {
    let mut g = DependencyGraph::new();
    g.add_edge(7, 7);
    g.add_edge(7, 8);
    let cycles = qproj::cycles::simple_cycles_in_component(&g, &[7]);
    assert_eq!(cycles, vec![vec![7]]);
}

#[test]
fn one_node_component_without_a_self_loop_has_no_cycle() {
    let mut g = DependencyGraph::new();
    g.add_edge(7, 8);
    g.add_edge(8, 7);
    let cycles = qproj::cycles::simple_cycles_in_component(&g, &[7]);
    assert!(cycles.is_empty());
}

#[test]
fn two_node_component_has_its_cycle() {
    let mut g = DependencyGraph::new();
    g.add_edge(1, 2);
    g.add_edge(2, 1);
    let cycles = qproj::cycles::simple_cycles_in_component(&g, &[1, 2]);
    assert_eq!(cycles.len(), 1);
    assert_eq!(cycles[0].len(), 2);
}

#[test]
fn component_cycles_are_all_found() {
    let (r, x, y) = (1, 2, 3);
    let mut g = DependencyGraph::new();
    g.add_edge(r, x);
    g.add_edge(x, r);
    g.add_edge(x, y);
    g.add_edge(y, r);
    let cycles = qproj::cycles::simple_cycles_in_component(&g, &[x, y, r]);
    assert_eq!(cycles, vec![vec![r, x], vec![r, x, y]]);
}

#[test]
fn a_triangle_is_found_once() {
    let (a, b, c) = (1, 2, 3);
    let mut g = DependencyGraph::new();
    g.add_edge(a, b);
    g.add_edge(b, c);
    g.add_edge(c, a);
    let cycles = qproj::cycles::simple_cycles_in_component(&g, &[a, b, c]);
    assert_eq!(cycles, vec![vec![c, a, b]]);
}

#[test]
fn self_loops_inside_a_component_are_found() {
    let mut g = DependencyGraph::new();
    g.add_edge(1, 2);
    g.add_edge(2, 1);
    g.add_edge(2, 2);
    let cycles = qproj::cycles::simple_cycles_in_component(&g, &[2, 1]);
    assert_eq!(cycles.len(), 2);
    assert!(cycles.contains(&vec![2]));
}

#[test]
fn an_undescribed_cycle_is_reported() {
    let mut g = DependencyGraph::new();
    g.add_edge(1, 2);
    g.add_edge(2, 1);
    match g.topsort_graph() {
        Err(DagError::DependencyCycle(msg)) => {
            assert!(msg.starts_with("Service has 1 before/after cycle(s):\n"));
        }
        other => panic!("unexpected {other:?}"),
    }
}

#[test]
fn removing_an_absent_node_changes_nothing() {
    let mut g = DependencyGraph::new();
    g.add_edge(1, 2);
    g.add_edge(1, 3);
    g.remove_node(9);
    assert_eq!(g.nodes(), vec![1, 2, 3]);
    assert_eq!(g.neighbors(1), vec![2, 3]);
    assert_eq!(g.all_edges().len(), 2);
}

#[test]
fn an_edge_added_again_is_listed_once() {
    let mut g = DependencyGraph::new();
    g.add_edge(1, 2);
    g.add_edge(1, 2);
    assert_eq!(g.neighbors(1), vec![2]);
    assert_eq!(g.all_edges().len(), 1);
}
