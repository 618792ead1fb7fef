use linked_hash_set::LinkedHashSet;
use rand::rngs::StdRng;
use rand::SeedableRng;
use worldgraph::error::Error;
use worldgraph::game_world::{
    build_game, exchange_one_ways, exchange_two_ways, pick_random_edges, swap_edges,
    try_swap_one_ways, try_swap_two_ways, EdgePair, GameWorld, OneWay, TwoWay,
};
use worldgraph::graph::{GameGraph, Graph};
use worldgraph::model::EdgeRef;

fn graph() -> GameGraph {
    GameGraph::from_edges(&[
        (0, 1),
        (1, 2),
        (2, 1),
        (2, 3),
        (3, 4),
        (4, 3),
        (4, 5),
        (5, 4),
        (3, 5),
        (5, 3),
        (4, 6),
        (6, 8),
        (8, 6),
        (5, 7),
        (7, 9),
        (9, 7),
        (8, 10),
        (9, 10),
    ])
}

fn shuffle_world() -> GameWorld {
    let mut graph = GameGraph::from_edges(&[
        (1, 2),
        (2, 1),
        (3, 4),
        (4, 3),
        (4, 5),
        (5, 4),
        (3, 5),
        (5, 3),
        (6, 8),
        (8, 6),
        (7, 9),
        (9, 7),
    ]);

    let ow1 = OneWay::new(graph.add_edge(0, 1));
    let ow2 = OneWay::new(graph.add_edge(2, 3));
    let ow3 = OneWay::new(graph.add_edge(4, 6));
    let ow4 = OneWay::new(graph.add_edge(5, 7));
    let ow5 = OneWay::new(graph.add_edge(8, 10));
    let ow6 = OneWay::new(graph.add_edge(9, 10));

    let mut ow_hashset = LinkedHashSet::new();
    ow_hashset.insert(ow1);
    ow_hashset.insert(ow2);
    ow_hashset.insert(ow3);
    ow_hashset.insert(ow4);
    ow_hashset.insert(ow5);
    ow_hashset.insert(ow6);

    GameWorld {
        graph,
        swappable_one_ways: ow_hashset,
        swappable_two_ways: LinkedHashSet::new(),
    }
}

fn all_endpoints(graph: &GameGraph) -> Vec<(EdgeRef, (u32, u32))> {
    graph
        .edge_indices()
        .into_iter()
        .map(|e| (e, graph.edge_endpoints(e).unwrap()))
        .collect()
}

#[test]
fn test_swap() {
    let mut graph = graph();

    let edge1 = OneWay::new(graph.add_edge(4, 6));

    let edge2 = OneWay::new(graph.add_edge(8, 10));

    let (idx1, idx2) = swap_edges(edge1.idx, edge2.idx, &mut graph);
    assert!(graph.edge_endpoints(idx1).unwrap() == (4, 10));
    assert!(graph.edge_endpoints(idx2).unwrap() == (8, 6));
}

#[test]
fn test_swap_two_ways() {
    let mut graph = graph();

    let edge1 = TwoWay::new(graph.add_edge(4, 6), graph.add_edge(6, 4));
    let edge2 = TwoWay::new(graph.add_edge(8, 10), graph.add_edge(10, 8));

    let (idx1, idx2) = swap_edges(edge1.idx1, edge2.idx1, &mut graph);
    let (idx3, idx4) = swap_edges(edge1.idx2, edge2.idx2, &mut graph);
    assert!(graph.edge_endpoints(idx1).unwrap() == (4, 10));
    assert!(graph.edge_endpoints(idx2).unwrap() == (8, 6));
    assert!(graph.edge_endpoints(idx3).unwrap() == (6, 8));
    assert!(graph.edge_endpoints(idx4).unwrap() == (10, 4));
}

// Both passages leave before either new one enters; otherwise passages get lost.
#[test]
fn test_swap_same_endpoint() {
    let mut graph = graph();

    let edge1 = OneWay::new(graph.add_edge(9, 10));

    let edge2 = OneWay::new(graph.add_edge(8, 10));

    let (idx1, idx2) = swap_edges(edge1.idx, edge2.idx, &mut graph);

    assert_eq!(graph.edge_endpoints(idx1).unwrap(), (9, 10));
    assert_eq!(graph.edge_endpoints(idx2).unwrap(), (8, 10));
}

#[test]
fn test_swap_twice() {
    let mut graph = graph();

    let edge1 = OneWay::new(graph.add_edge(4, 6));

    let edge2 = OneWay::new(graph.add_edge(8, 10));

    let EdgePair(new_edge1, new_edge2) = edge1.swap(&edge2, &mut graph);
    let EdgePair(final_edge1, final_edge2) = new_edge1.swap(&new_edge2, &mut graph);

    assert!(graph.edge_endpoints(final_edge1.idx).unwrap() == (4, 6));
    assert!(graph.edge_endpoints(final_edge2.idx).unwrap() == (8, 10));
}

#[test]
fn test_swap_twice_two_ways() {
    let mut graph = graph();

    let edge1 = TwoWay::new(graph.add_edge(4, 6), graph.add_edge(6, 4));
    let edge2 = TwoWay::new(graph.add_edge(8, 10), graph.add_edge(10, 8));

    let EdgePair(new_edge1, new_edge2) = edge1.swap(&edge2, &mut graph);
    let EdgePair(final_edge1, final_edge2) = new_edge1.swap(&new_edge2, &mut graph);

    assert_eq!(graph.edge_endpoints(final_edge1.idx1).unwrap(), (4, 6));
    assert_eq!(graph.edge_endpoints(final_edge1.idx2).unwrap(), (6, 4));
    assert_eq!(graph.edge_endpoints(final_edge2.idx1).unwrap(), (8, 10));
    assert_eq!(graph.edge_endpoints(final_edge2.idx2).unwrap(), (10, 8));
}

#[test]
fn test_beatable() {
    let graph = graph();

    assert!(graph.game_beatable().is_ok());
}

#[test]
fn test_shuffle() {
    let game_world = shuffle_world();

    let mut rng = StdRng::seed_from_u64(3);

    let game = build_game(game_world, &mut rng, 500).unwrap();

    assert_eq!(game.graph.edge_count(), 18);
    assert!(game.graph.game_beatable().is_ok());
}

#[test]
fn swap_returns_the_vacated_references_last_first() {
    let mut graph = graph();
    let e1 = graph.add_edge(4, 6);
    let e2 = graph.add_edge(8, 10);
    let (new1, new2) = swap_edges(e1, e2, &mut graph);
    assert_eq!(new1, e2);
    assert_eq!(new2, e1);
}

#[test]
fn swap_keeps_edge_count_and_other_edges() {
    let mut graph = graph();
    let before = all_endpoints(&graph);
    let count = graph.edge_count();
    assert_eq!(count, 18);
    let e1 = EdgeRef::new(0);
    let e2 = EdgeRef::new(16);
    assert_eq!(graph.edge_endpoints(e1), Some((0, 1)));
    assert_eq!(graph.edge_endpoints(e2), Some((8, 10)));
    swap_edges(e1, e2, &mut graph);
    assert_eq!(graph.edge_count(), count);
    let after = all_endpoints(&graph);
    assert_eq!(after.len(), before.len());
    for (was, is) in before.iter().zip(after.iter()) {
        assert_eq!(was.0, is.0);
        if was.0 == e1 {
            assert_eq!(is.1, (8, 1));
        } else if was.0 == e2 {
            assert_eq!(is.1, (0, 10));
        } else {
            assert_eq!(was.1, is.1);
        }
    }
}

#[test]
fn swap_twice_restores_references_and_graph() {
    let mut graph = graph();
    let before = all_endpoints(&graph);
    let e1 = EdgeRef::new(3);
    let e2 = EdgeRef::new(13);
    let (n1, n2) = swap_edges(e1, e2, &mut graph);
    assert_ne!(all_endpoints(&graph), before);
    let (f1, f2) = swap_edges(n1, n2, &mut graph);
    assert_eq!((f1, f2), (e1, e2));
    assert_eq!(all_endpoints(&graph), before);
}

#[test]
fn swap_twice_with_shared_source_restores() {
    let mut graph = GameGraph::from_edges(&[(0, 1), (0, 2)]);
    let e1 = EdgeRef::new(0);
    let e2 = EdgeRef::new(1);
    let (n1, n2) = swap_edges(e1, e2, &mut graph);
    assert_eq!(graph.edge_endpoints(n1), Some((0, 2)));
    assert_eq!(graph.edge_endpoints(n2), Some((0, 1)));
    let (f1, f2) = swap_edges(n1, n2, &mut graph);
    assert_eq!(graph.edge_endpoints(f1), Some((0, 1)));
    assert_eq!(graph.edge_endpoints(f2), Some((0, 2)));
    assert_eq!(graph.edge_count(), 2);
}

#[test]
fn one_way_swap_returns_the_other_connection_first() {
    let mut graph = graph();
    let edge1 = OneWay::new(EdgeRef::new(10));
    let edge2 = OneWay::new(EdgeRef::new(13));
    let EdgePair(new1, new2) = edge1.swap(&edge2, &mut graph);
    assert_eq!(new1, edge2);
    assert_eq!(new2, edge1);
    assert_eq!(graph.edge_endpoints(new1.get_idx()), Some((4, 7)));
    assert_eq!(graph.edge_endpoints(new2.get_idx()), Some((5, 6)));
}

#[test]
fn two_way_swap_crosses_forward_and_backward() {
    let mut graph = GameGraph::from_edges(&[(1, 2), (2, 1), (3, 4), (4, 3)]);
    let edge1 = TwoWay::new(EdgeRef::new(0), EdgeRef::new(1));
    let edge2 = TwoWay::new(EdgeRef::new(2), EdgeRef::new(3));
    let EdgePair(new1, new2) = edge1.swap(&edge2, &mut graph);
    assert_eq!(new1, TwoWay::new(EdgeRef::new(2), EdgeRef::new(1)));
    assert_eq!(new2, TwoWay::new(EdgeRef::new(0), EdgeRef::new(3)));
    assert_eq!(new1.get_idx1(), EdgeRef::new(2));
    assert_eq!(new1.get_idx2(), EdgeRef::new(1));
    // each returned connection joins its two areas in both directions
    assert_eq!(graph.edge_endpoints(new1.idx1), Some((1, 4)));
    assert_eq!(graph.edge_endpoints(new1.idx2), Some((4, 1)));
    assert_eq!(graph.edge_endpoints(new2.idx1), Some((3, 2)));
    assert_eq!(graph.edge_endpoints(new2.idx2), Some((2, 3)));
    assert_eq!(graph.edge_count(), 4);
}

#[test]
fn pick_needs_two_members() {
    let mut rng = StdRng::seed_from_u64(11);
    let none: Vec<u32> = Vec::new();
    assert!(pick_random_edges(&none, &mut rng).is_none());
    assert!(pick_random_edges(&vec![5u32], &mut rng).is_none());
}

#[test]
fn pick_draws_two_different_members() {
    let members: Vec<u32> = vec![10, 20, 30, 40, 50];
    for seed in 0..50u64 {
        let mut rng = StdRng::seed_from_u64(seed);
        let EdgePair(a, b) = pick_random_edges(&members, &mut rng).unwrap();
        assert!(members.contains(&a));
        assert!(members.contains(&b));
        assert_ne!(a, b);
    }
    let mut rng = StdRng::seed_from_u64(1);
    let EdgePair(a, b) = pick_random_edges(&vec![7u32, 9u32], &mut rng).unwrap();
    assert!((a, b) == (7, 9) || (a, b) == (9, 7));
}

#[test]
fn pick_is_not_always_the_first_two() {
    let members: Vec<u32> = vec![10, 20, 30, 40, 50];
    let mut seen_other = false;
    for seed in 0..50u64 {
        let mut rng = StdRng::seed_from_u64(seed);
        let EdgePair(a, b) = pick_random_edges(&members, &mut rng).unwrap();
        if a > 20 || b > 20 {
            seen_other = true;
        }
    }
    assert!(seen_other);
}

#[test]
fn exchange_is_kept_when_the_world_stays_completable() {
    let mut graph = GameGraph::from_edges(&[(0, 1), (0, 2)]);
    let a = OneWay::new(EdgeRef::new(0));
    let b = OneWay::new(EdgeRef::new(1));
    let c = OneWay::new(EdgeRef::new(7));
    let mut pool = LinkedHashSet::new();
    pool.insert(a);
    pool.insert(c);
    pool.insert(b);
    // `c` is only here to show the order; it is taken out again before the call
    pool.remove(&c);
    let d = OneWay::new(graph.add_edge(2, 3));
    pool.insert(d);
    let kept = exchange_one_ways(&mut graph, &mut pool, a, d);
    assert!(kept);
    assert_eq!(graph.edge_endpoints(EdgeRef::new(0)), Some((2, 1)));
    assert_eq!(graph.edge_endpoints(d.idx), Some((0, 3)));
    assert_eq!(graph.edge_endpoints(EdgeRef::new(1)), Some((0, 2)));
    assert!(graph.game_beatable().is_ok());
    let members: Vec<OneWay> = pool.iter().copied().collect();
    assert_eq!(members, vec![b, d, a]);
}

#[test]
fn exchange_is_undone_when_the_world_breaks() {
    let mut graph = GameGraph::from_edges(&[(0, 1), (1, 2)]);
    let before = all_endpoints(&graph);
    let a = OneWay::new(EdgeRef::new(0));
    let b = OneWay::new(EdgeRef::new(1));
    let mut pool = LinkedHashSet::new();
    pool.insert(a);
    pool.insert(b);
    // 0->1 and 1->2 would become 0->2 and 1->1, which leaves area 1 without a way in
    let kept = exchange_one_ways(&mut graph, &mut pool, a, b);
    assert!(!kept);
    assert_eq!(all_endpoints(&graph), before);
    let members: Vec<OneWay> = pool.iter().copied().collect();
    assert_eq!(members, vec![a, b]);
    assert!(graph.game_beatable().is_ok());
}

#[test]
fn two_way_exchange_is_kept_and_enters_the_pool() {
    let mut graph =
        GameGraph::from_edges(&[(0, 1), (1, 2), (2, 1), (3, 4), (4, 3), (2, 3), (0, 3)]);
    let x = TwoWay::new(EdgeRef::new(1), EdgeRef::new(2));
    let y = TwoWay::new(EdgeRef::new(3), EdgeRef::new(4));
    let mut pool = LinkedHashSet::new();
    pool.insert(x);
    pool.insert(y);
    let kept = exchange_two_ways(&mut graph, &mut pool, x, y);
    assert!(kept);
    let members: Vec<TwoWay> = pool.iter().copied().collect();
    assert_eq!(
        members,
        vec![
            TwoWay::new(EdgeRef::new(3), EdgeRef::new(2)),
            TwoWay::new(EdgeRef::new(1), EdgeRef::new(4)),
        ]
    );
    assert_eq!(graph.edge_endpoints(EdgeRef::new(3)), Some((1, 4)));
    assert_eq!(graph.edge_endpoints(EdgeRef::new(2)), Some((4, 1)));
    assert_eq!(graph.edge_endpoints(EdgeRef::new(1)), Some((3, 2)));
    assert_eq!(graph.edge_endpoints(EdgeRef::new(4)), Some((2, 3)));
    assert_eq!(graph.edge_endpoints(EdgeRef::new(5)), Some((2, 3)));
    assert_eq!(graph.edge_count(), 7);
    assert!(graph.game_beatable().is_ok());
}

#[test]
fn two_way_exchange_is_undone_when_the_world_breaks() {
    // 0 <-> 1 and 2 <-> 3 joined by 1 -> 2: exchanging the two pairs gives
    // 0 <-> 3 and 2 <-> 1 with 1 -> 2, and area 0 cannot reach area 1 any more,
    // nor the other way round: two roots.
    let mut graph = GameGraph::from_edges(&[(0, 1), (1, 0), (2, 3), (3, 2), (1, 2)]);
    let before = all_endpoints(&graph);
    let x = TwoWay::new(EdgeRef::new(0), EdgeRef::new(1));
    let y = TwoWay::new(EdgeRef::new(2), EdgeRef::new(3));
    let mut pool = LinkedHashSet::new();
    pool.insert(x);
    pool.insert(y);
    let kept = exchange_two_ways(&mut graph, &mut pool, x, y);
    assert!(!kept);
    assert_eq!(all_endpoints(&graph), before);
    let members: Vec<TwoWay> = pool.iter().copied().collect();
    assert_eq!(members, vec![x, y]);
}

#[test]
fn try_swap_skips_small_pools() {
    let mut graph = graph();
    let before = all_endpoints(&graph);
    let mut rng = StdRng::seed_from_u64(5);
    let mut ones: LinkedHashSet<OneWay> = LinkedHashSet::new();
    try_swap_one_ways(&mut graph, &mut ones, &mut rng);
    ones.insert(OneWay::new(EdgeRef::new(0)));
    try_swap_one_ways(&mut graph, &mut ones, &mut rng);
    let mut twos: LinkedHashSet<TwoWay> = LinkedHashSet::new();
    try_swap_two_ways(&mut graph, &mut twos, &mut rng);
    twos.insert(TwoWay::new(EdgeRef::new(1), EdgeRef::new(2)));
    try_swap_two_ways(&mut graph, &mut twos, &mut rng);
    assert_eq!(all_endpoints(&graph), before);
    assert_eq!(ones.len(), 1);
    assert_eq!(twos.len(), 1);
}

#[test]
fn build_is_the_same_for_the_same_seed() {
    for seed in [0u64, 3, 17, 1234] {
        let mut rng1 = StdRng::seed_from_u64(seed);
        let mut rng2 = StdRng::seed_from_u64(seed);
        let game1 = build_game(shuffle_world(), &mut rng1, 200).unwrap();
        let game2 = build_game(shuffle_world(), &mut rng2, 200).unwrap();
        assert_eq!(all_endpoints(&game1.graph), all_endpoints(&game2.graph));
        let pool1: Vec<OneWay> = game1.swappable_one_ways.iter().copied().collect();
        let pool2: Vec<OneWay> = game2.swappable_one_ways.iter().copied().collect();
        assert_eq!(pool1, pool2);
    }
}

#[test]
fn build_rearranges_something() {
    let start = all_endpoints(&shuffle_world().graph);
    let mut changed = false;
    for seed in 0..5u64 {
        let mut rng = StdRng::seed_from_u64(seed);
        let game = build_game(shuffle_world(), &mut rng, 100).unwrap();
        if all_endpoints(&game.graph) != start {
            changed = true;
        }
    }
    assert!(changed);
}

#[test]
fn build_keeps_the_invariants_for_many_seeds() {
    let start = shuffle_world();
    let start_ends = all_endpoints(&start.graph);
    for seed in 0..20u64 {
        for iterations in [0usize, 1, 2, 50] {
            let mut rng = StdRng::seed_from_u64(seed);
            let game = build_game(shuffle_world(), &mut rng, iterations).unwrap();
            assert!(game.graph.game_beatable().is_ok());
            assert_eq!(game.graph.edge_count(), 18);
            assert_eq!(game.swappable_one_ways.len(), 6);
            assert_eq!(game.swappable_two_ways.len(), 0);
            let ends = all_endpoints(&game.graph);
            assert_eq!(ends.len(), start_ends.len());
            for (was, is) in start_ends.iter().zip(ends.iter()) {
                // same references, and every passage still enters the same area
                assert_eq!(was.0, is.0);
                assert_eq!((was.1).1, (is.1).1);
                // passages outside the pool are untouched
                if was.0.index() < 12 {
                    assert_eq!(was.1, is.1);
                }
            }
            // every pool member still refers to a passage
            for one_way in game.swappable_one_ways.iter() {
                assert!(game.graph.edge_endpoints(one_way.idx).is_some());
            }
            if iterations == 0 {
                assert_eq!(ends, start_ends);
            }
        }
    }
}

#[test]
fn build_with_two_way_pool_keeps_the_invariants() {
    for seed in 0..20u64 {
        let mut graph = GameGraph::from_edges(&[(0, 1)]);
        let mut twos = LinkedHashSet::new();
        for (a, b) in [(1, 2), (2, 3), (3, 4), (1, 4), (2, 5)] {
            twos.insert(TwoWay::new(graph.add_edge(a, b), graph.add_edge(b, a)));
        }
        let world = GameWorld {
            graph,
            swappable_one_ways: LinkedHashSet::new(),
            swappable_two_ways: twos,
        };
        let mut rng = StdRng::seed_from_u64(seed);
        let game = build_game(world, &mut rng, 100).unwrap();
        assert!(game.graph.game_beatable().is_ok());
        assert_eq!(game.graph.edge_count(), 11);
        assert_eq!(game.swappable_two_ways.len(), 5);
        for two_way in game.swappable_two_ways.iter() {
            let (a, b) = game.graph.edge_endpoints(two_way.idx1).unwrap();
            assert_eq!(game.graph.edge_endpoints(two_way.idx2), Some((b, a)));
        }
    }
}

#[test]
fn build_refuses_a_world_with_two_roots() {
    let mut graph = GameGraph::from_edges(&[(0, 1), (2, 1), (1, 3)]);
    let a = OneWay::new(graph.add_edge(3, 4));
    let b = OneWay::new(graph.add_edge(3, 5));
    let mut pool = LinkedHashSet::new();
    pool.insert(a);
    pool.insert(b);
    let world = GameWorld {
        graph,
        swappable_one_ways: pool,
        swappable_two_ways: LinkedHashSet::new(),
    };
    let mut rng = StdRng::seed_from_u64(3);
    match build_game(world, &mut rng, 100) {
        Err(Error::GameUnbeatable(mut ids)) => {
            ids.sort();
            assert_eq!(ids, vec![0, 2]);
        }
        Ok(_) => panic!("a world with two roots was accepted"),
    }
}

#[test]
fn pools_fit_a_world_whose_pools_name_live_passages() {
    assert!(shuffle_world().pools_fit());
    let mut graph = GameGraph::from_edges(&[(0, 1), (1, 0), (1, 2), (2, 1)]);
    let mut twos = LinkedHashSet::new();
    twos.insert(TwoWay::new(EdgeRef::new(0), EdgeRef::new(1)));
    twos.insert(TwoWay::new(EdgeRef::new(2), EdgeRef::new(3)));
    let mut ones = LinkedHashSet::new();
    ones.insert(OneWay::new(graph.add_edge(2, 3)));
    let world = GameWorld {
        graph,
        swappable_one_ways: ones,
        swappable_two_ways: twos,
    };
    assert!(world.pools_fit());
}

#[test]
fn pools_do_not_fit_with_a_stale_reference() {
    let mut world = shuffle_world();
    world.graph.remove_edge(EdgeRef::new(14));
    assert!(!world.pools_fit());

    let mut twos = LinkedHashSet::new();
    twos.insert(TwoWay::new(EdgeRef::new(0), EdgeRef::new(40)));
    let world = GameWorld {
        graph: GameGraph::from_edges(&[(0, 1), (1, 0)]),
        swappable_one_ways: LinkedHashSet::new(),
        swappable_two_ways: twos,
    };
    assert!(!world.pools_fit());

    let mut twos = LinkedHashSet::new();
    twos.insert(TwoWay::new(EdgeRef::new(40), EdgeRef::new(0)));
    let world = GameWorld {
        graph: GameGraph::from_edges(&[(0, 1), (1, 0)]),
        swappable_one_ways: LinkedHashSet::new(),
        swappable_two_ways: twos,
    };
    assert!(!world.pools_fit());
}

#[test]
fn pools_do_not_fit_when_two_ways_share_a_passage() {
    let mut twos = LinkedHashSet::new();
    twos.insert(TwoWay::new(EdgeRef::new(0), EdgeRef::new(1)));
    twos.insert(TwoWay::new(EdgeRef::new(0), EdgeRef::new(3)));
    let world = GameWorld {
        graph: GameGraph::from_edges(&[(0, 1), (1, 0), (1, 2), (2, 1)]),
        swappable_one_ways: LinkedHashSet::new(),
        swappable_two_ways: twos,
    };
    assert!(!world.pools_fit());

    let mut twos = LinkedHashSet::new();
    twos.insert(TwoWay::new(EdgeRef::new(0), EdgeRef::new(1)));
    twos.insert(TwoWay::new(EdgeRef::new(2), EdgeRef::new(1)));
    let world = GameWorld {
        graph: GameGraph::from_edges(&[(0, 1), (1, 0), (1, 2), (2, 1)]),
        swappable_one_ways: LinkedHashSet::new(),
        swappable_two_ways: twos,
    };
    assert!(!world.pools_fit());
}

#[test]
fn a_forward_passage_used_as_backward_can_break_the_world() {
    // The two connections share passage 0, once forward and once backward.
    // The pools fit, but undoing a refused exchange then rotates where the
    // three passages leave from instead of restoring them.
    let x = TwoWay::new(EdgeRef::new(0), EdgeRef::new(1));
    let y = TwoWay::new(EdgeRef::new(2), EdgeRef::new(0));
    let mut graph = GameGraph::from_edges(&[(0, 1), (1, 2), (1, 3)]);
    let mut pool = LinkedHashSet::new();
    pool.insert(x);
    pool.insert(y);
    assert!(graph.game_beatable().is_ok());
    let kept = exchange_two_ways(&mut graph, &mut pool, x, y);
    assert!(!kept);
    assert_eq!(graph.edge_endpoints(EdgeRef::new(0)), Some((1, 1)));
    assert_eq!(graph.edge_endpoints(EdgeRef::new(1)), Some((0, 2)));
    assert_eq!(graph.edge_endpoints(EdgeRef::new(2)), Some((1, 3)));
    assert_eq!(graph.edge_count(), 3);
    assert!(graph.game_beatable().is_err());
}
