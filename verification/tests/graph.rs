use worldgraph::condensation::single_root;
use worldgraph::error::Error;
use worldgraph::graph::{GameGraph, Graph};
use worldgraph::model::EdgeRef;

#[test]
fn from_edges_names_areas_in_order_of_first_use() {
    let graph = GameGraph::from_edges(&[(7, 3), (3, 9), (7, 9)]);
    assert_eq!(graph.edge_count(), 3);
    assert_eq!(graph.edge_endpoints(EdgeRef::new(0)), Some((7, 3)));
    assert_eq!(graph.edge_endpoints(EdgeRef::new(1)), Some((3, 9)));
    assert_eq!(graph.edge_endpoints(EdgeRef::new(2)), Some((7, 9)));
    assert_eq!(graph.edge_endpoints(EdgeRef::new(3)), None);
}

#[test]
fn empty_graph_has_no_edges_and_no_root() {
    let graph = GameGraph::from_edges(&[]);
    assert_eq!(graph.edge_count(), 0);
    assert!(graph.edge_indices().is_empty());
    match graph.game_beatable() {
        Err(Error::GameUnbeatable(ids)) => assert!(ids.is_empty()),
        Ok(()) => panic!("a world without areas was accepted"),
    }
}

#[test]
fn add_edge_makes_unseen_areas() {
    let mut graph = GameGraph::from_edges(&[(1, 2)]);
    let e = graph.add_edge(5, 6);
    assert_eq!(e, EdgeRef::new(1));
    assert_eq!(e.index(), 1);
    assert_eq!(graph.edge_endpoints(e), Some((5, 6)));
    let f = graph.add_edge(6, 1);
    assert_eq!(graph.edge_endpoints(f), Some((6, 1)));
    assert_eq!(graph.edge_count(), 3);
}

#[test]
fn self_loop_has_one_area_at_both_ends() {
    let mut graph = GameGraph::from_edges(&[]);
    let e = graph.add_edge(4, 4);
    assert_eq!(graph.edge_endpoints(e), Some((4, 4)));
    assert_eq!(graph.edge_count(), 1);
    assert!(graph.game_beatable().is_ok());
}

#[test]
fn parallel_edges_are_told_apart() {
    let mut graph = GameGraph::from_edges(&[(1, 2), (1, 2)]);
    let third = graph.add_edge(1, 2);
    assert_eq!(graph.edge_count(), 3);
    assert_eq!(
        graph.edge_indices(),
        vec![EdgeRef::new(0), EdgeRef::new(1), third]
    );
    assert_eq!(graph.remove_edge(EdgeRef::new(1)), Some(()));
    assert_eq!(graph.edge_endpoints(EdgeRef::new(0)), Some((1, 2)));
    assert_eq!(graph.edge_endpoints(EdgeRef::new(1)), None);
    assert_eq!(graph.edge_endpoints(third), Some((1, 2)));
    assert_eq!(graph.edge_count(), 2);
}

#[test]
fn remove_edge_says_whether_the_edge_was_there() {
    let mut graph = GameGraph::from_edges(&[(1, 2), (2, 3)]);
    assert_eq!(graph.remove_edge(EdgeRef::new(0)), Some(()));
    assert_eq!(graph.remove_edge(EdgeRef::new(0)), None);
    assert_eq!(graph.remove_edge(EdgeRef::new(9)), None);
    assert_eq!(graph.remove_edge(EdgeRef::new(u32::MAX)), None);
    assert_eq!(graph.edge_count(), 1);
    assert_eq!(graph.edge_indices(), vec![EdgeRef::new(1)]);
}

#[test]
fn remove_edge_keeps_the_areas() {
    let mut graph = GameGraph::from_edges(&[(1, 2), (3, 1)]);
    graph.remove_edge(EdgeRef::new(0));
    // area 2 has no passage left and is a root of its own
    match graph.game_beatable() {
        Err(Error::GameUnbeatable(mut ids)) => {
            ids.sort();
            assert_eq!(ids, vec![2, 3]);
        }
        Ok(()) => panic!("area 2 was forgotten"),
    }
}

#[test]
fn vacated_references_come_back_last_first() {
    let mut graph = GameGraph::from_edges(&[(1, 2), (2, 3), (3, 4), (4, 5)]);
    graph.remove_edge(EdgeRef::new(2));
    graph.remove_edge(EdgeRef::new(0));
    graph.remove_edge(EdgeRef::new(3));
    assert_eq!(graph.add_edge(9, 8), EdgeRef::new(3));
    assert_eq!(graph.add_edge(8, 7), EdgeRef::new(0));
    assert_eq!(graph.add_edge(7, 6), EdgeRef::new(2));
    assert_eq!(graph.add_edge(6, 5), EdgeRef::new(4));
    assert_eq!(graph.edge_endpoints(EdgeRef::new(3)), Some((9, 8)));
    assert_eq!(graph.edge_endpoints(EdgeRef::new(0)), Some((8, 7)));
    assert_eq!(graph.edge_endpoints(EdgeRef::new(2)), Some((7, 6)));
    assert_eq!(graph.edge_endpoints(EdgeRef::new(1)), Some((2, 3)));
    assert_eq!(graph.edge_count(), 5);
}

#[test]
fn edge_indices_are_ascending_and_skip_vacant_slots() {
    let mut graph = GameGraph::from_edges(&[(1, 2), (2, 3), (3, 4), (4, 5)]);
    graph.remove_edge(EdgeRef::new(1));
    assert_eq!(
        graph.edge_indices(),
        vec![EdgeRef::new(0), EdgeRef::new(2), EdgeRef::new(3)]
    );
    assert_eq!(graph.edge_count(), 3);
}

#[test]
fn a_chain_is_completable() {
    let graph = GameGraph::from_edges(&[(0, 1), (1, 2), (2, 3)]);
    assert!(graph.game_beatable().is_ok());
}

#[test]
fn a_cycle_is_one_root() {
    let graph = GameGraph::from_edges(&[(0, 1), (1, 2), (2, 0), (2, 3)]);
    assert!(graph.game_beatable().is_ok());
}

#[test]
fn two_roots_are_reported_with_all_their_areas() {
    // roots: the cycle {0, 1} and the single area 5
    let graph = GameGraph::from_edges(&[(0, 1), (1, 0), (1, 2), (5, 2), (2, 3)]);
    match graph.game_beatable() {
        Err(Error::GameUnbeatable(mut ids)) => {
            ids.sort();
            assert_eq!(ids, vec![0, 1, 5]);
        }
        Ok(()) => panic!("two roots were accepted"),
    }
}

#[test]
fn a_graph_after_removals_is_judged_by_its_live_edges() {
    let mut graph = GameGraph::from_edges(&[(0, 1), (1, 2), (0, 2)]);
    assert!(graph.game_beatable().is_ok());
    graph.remove_edge(EdgeRef::new(0));
    // 1 -> 2 and 0 -> 2 are left: areas 0 and 1 are both roots
    assert!(graph.game_beatable().is_err());
    graph.add_edge(0, 1);
    assert!(graph.game_beatable().is_ok());
}

#[test]
fn single_root_accepts_one_root() {
    let components = vec![vec![4, 5], vec![1], vec![9]];
    let links = vec![(1, 0), (1, 2)];
    assert!(single_root(&components, &links).is_ok());
}

#[test]
fn single_root_reports_every_root_in_component_order() {
    let components = vec![vec![4, 5], vec![1], vec![9, 8, 7]];
    let links = vec![(0, 1)];
    match single_root(&components, &links) {
        Err(Error::GameUnbeatable(ids)) => assert_eq!(ids, vec![4, 5, 9, 8, 7]),
        Ok(()) => panic!("two roots were accepted"),
    }
}

#[test]
fn single_root_refuses_a_condensation_without_root() {
    let components = vec![vec![1], vec![2]];
    let links = vec![(0, 1), (1, 0)];
    match single_root(&components, &links) {
        Err(Error::GameUnbeatable(ids)) => assert!(ids.is_empty()),
        Ok(()) => panic!("no root was accepted"),
    }
    let none: Vec<Vec<u32>> = Vec::new();
    assert!(single_root(&none, &Vec::new()).is_err());
}

#[test]
fn single_root_ignores_links_into_no_component() {
    let components = vec![vec![1]];
    let links = vec![(0, 3)];
    assert!(single_root(&components, &links).is_ok());
}
