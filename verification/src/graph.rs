//! The directed multigraph of areas and passages.
use vstd::prelude::*;
use bimap::BiMap;
use petgraph::stable_graph::StableDiGraph;
use crate::condensation::single_root;
use crate::error::Error;
use crate::model::EdgeRef;
use crate::model::GraphModel;
use crate::node_map;
use crate::node_map::map_pairs;
use crate::stable_graph;
use crate::stable_graph::graph_edges;
use crate::stable_graph::graph_free_edges;
use crate::stable_graph::graph_nodes;
use crate::stable_graph::node_present;
use crate::stable_graph::occupied_slots;
use crate::stable_graph::slot_occupied;
use crate::NodeID;

verus! {

/// A directed multigraph whose passages keep their references until they are
/// removed, and which hands out vacated references again, last vacated first.
///
/// A graph holds a well-formed model at all times: every operation says so of
/// the model it finds and of the model it leaves.
pub trait Graph: Sized {
    /// What the graph holds.
    spec fn view(&self) -> GraphModel;

    /// The graph with one passage for each pair, added in order; an area gets
    /// its node slot when it is first named.
    fn from_edges(edges: &[(NodeID, NodeID)]) -> (g: Self)
        requires
            2 * edges@.len() <= u32::MAX,
        ensures
            g@.wf(),
            g@ == GraphModel::from_edges(edges@),
            g@.edges.len() == edges@.len(),
            g@.free.len() == 0,
            g@.nodes.len() <= 2 * edges@.len(),
            g@.edge_count() == edges@.len(),
            forall|e: EdgeRef| #[trigger] g@.live(e) <==> e.index < edges@.len(),
            forall|e: EdgeRef|
                e.index < edges@.len() ==> #[trigger] g@.endpoints(e) == Some(
                    edges@[e.index as int],
                ),
    ;

    /// The number of passages.
    fn edge_count(&self) -> (n: usize)
        ensures
            self@.wf(),
            n == self@.edge_count(),
    ;

    /// The areas that passage `e` leaves and enters, or `None` where `e`
    /// refers to no passage.
    fn edge_endpoints(&self, e: EdgeRef) -> (ends: Option<(NodeID, NodeID)>)
        ensures
            self@.wf(),
            ends == self@.endpoints(e),
    ;

    /// The references of all passages, ascending.
    fn edge_indices(&self) -> (refs: Vec<EdgeRef>)
        ensures
            self@.wf(),
            forall|i: int, j: int| 0 <= i < j < refs@.len() ==> refs@[i].index < refs@[j].index,
            forall|e: EdgeRef| refs@.contains(e) <==> self@.live(e),
    ;

    /// Adds a passage from `node1` to `node2` and returns its reference: the
    /// one vacated last, or a new one where none is vacant.
    fn add_edge(&mut self, node1: NodeID, node2: NodeID) -> (e: EdgeRef)
        requires
            old(self)@.can_add_edge(node1, node2),
        ensures
            old(self)@.wf(),
            final(self)@.wf(),
            final(self)@ == old(self)@.add_edge(node1, node2),
            e.index == old(self)@.next_edge_slot(),
            !old(self)@.live(e),
            final(self)@.endpoints(e) == Some((node1, node2)),
            forall|other: EdgeRef|
                old(self)@.live(other) ==> #[trigger] final(self)@.endpoints(other) == old(
                    self
                )@.endpoints(other),
            forall|other: EdgeRef| #[trigger]
                final(self)@.live(other) <==> (old(self)@.live(other) || other == e),
            final(self)@.edge_count() == old(self)@.edge_count() + 1,
            final(self)@.nodes.len() <= old(self)@.nodes.len() + 2,
            final(self)@.edges.len() <= old(self)@.edges.len() + 1,
            final(self)@.free.len() <= old(self)@.free.len(),
    ;

    /// Removes passage `e`. Returns `None`, and changes nothing, where `e`
    /// refers to no passage.
    fn remove_edge(&mut self, e: EdgeRef) -> (removed: Option<()>)
        ensures
            old(self)@.wf(),
            final(self)@.wf(),
            removed is Some <==> old(self)@.live(e),
            final(self)@ == old(self)@.remove_edge(e),
            final(self)@.endpoints(e) is None,
            forall|other: EdgeRef|
                other != e ==> #[trigger] final(self)@.endpoints(other) == old(self)@.endpoints(
                    other,
                ),
            forall|other: EdgeRef| #[trigger]
                final(self)@.live(other) <==> (old(self)@.live(other) && other != e),
            removed is Some ==> final(self)@.edge_count() == old(self)@.edge_count() - 1,
    ;

    /// Succeeds exactly when the condensation of the graph has one root;
    /// otherwise the error carries the areas of every root.
    fn game_beatable(&self) -> (verdict: Result<(), Error>)
        ensures
            self@.wf(),
            verdict is Ok <==> self@.is_completable(),
            verdict matches Err(Error::GameUnbeatable(ids)) ==> ids@ == self@.root_areas(),
    ;
}

/// The multigraph of a world: a stable graph of node and edge slots, and the
/// map between areas and their node slots.
pub struct GameGraph {
    graph: StableDiGraph<NodeID, ()>,
    node_map: BiMap<NodeID, u32>,
}

impl GameGraph {
    /// Stable graph and map agree at all times.
    #[verifier::type_invariant]
    spec fn inv(&self) -> bool {
        consistent(self.graph, self.node_map)
    }
}

/// The model that a stable graph without removed nodes stores.
spec fn stored(g: StableDiGraph<NodeID, ()>) -> GraphModel {
    GraphModel {
        nodes: Seq::new(graph_nodes(g).len(), |i: int| graph_nodes(g)[i]->0),
        edges: graph_edges(g),
        free: graph_free_edges(g),
    }
}

/// No node was removed, the stored model is well formed, and the map pairs
/// each area with its node slot and holds nothing else.
spec fn consistent(g: StableDiGraph<NodeID, ()>, m: BiMap<NodeID, u32>) -> bool {
    &&& forall|i: int| 0 <= i < graph_nodes(g).len() ==> node_present(graph_nodes(g), i)
    &&& stored(g).wf()
    &&& forall|id: NodeID, i: u32| #[trigger]
        map_pairs(m).contains((id, i)) <==> (i < stored(g).nodes.len() && stored(g).nodes[i as int]
            == id)
}

/// A pair of the map names an area of the graph and its slot.
proof fn lemma_known_node(g: StableDiGraph<NodeID, ()>, m: BiMap<NodeID, u32>, id: NodeID, i: u32)
    requires
        consistent(g, m),
        map_pairs(m).contains((id, i)),
    ensures
        stored(g).has_node(id),
        stored(g).node_slot(id) == i,
        stored(g).with_node(id) == stored(g),
        i < stored(g).nodes.len(),
        node_present(graph_nodes(g), i as int),
{
    stored(g).lemma_node_slot(i as int);
}

/// An area that the map does not hold has no node slot.
proof fn lemma_unknown_node(g: StableDiGraph<NodeID, ()>, m: BiMap<NodeID, u32>, id: NodeID)
    requires
        consistent(g, m),
        forall|i: u32| !map_pairs(m).contains((id, i)),
    ensures
        !stored(g).has_node(id),
{
    if stored(g).has_node(id) {
        stored(g).lemma_node_slot_of(id);
        let i = stored(g).node_slot(id);
        assert(map_pairs(m).contains((id, i as u32)));
    }
}

/// A new node slot with its pair in the map keeps graph and map consistent.
proof fn lemma_node_added(
    g0: StableDiGraph<NodeID, ()>,
    m0: BiMap<NodeID, u32>,
    g1: StableDiGraph<NodeID, ()>,
    m1: BiMap<NodeID, u32>,
    id: NodeID,
)
    requires
        consistent(g0, m0),
        !stored(g0).has_node(id),
        stored(g0).nodes.len() < u32::MAX,
        graph_nodes(g1) == graph_nodes(g0).push(Some(id)),
        graph_edges(g1) == graph_edges(g0),
        graph_free_edges(g1) == graph_free_edges(g0),
        map_pairs(m1) == map_pairs(m0).insert((id, stored(g0).nodes.len() as u32)),
    ensures
        consistent(g1, m1),
        stored(g1) == stored(g0).with_node(id),
{
    let before = stored(g0);
    let after = stored(g1);
    assert(after.nodes =~= before.nodes.push(id));
    assert(after == before.with_node(id));
    before.lemma_with_node(id);
    assert forall|i: int| 0 <= i < graph_nodes(g1).len() implies node_present(
        graph_nodes(g1),
        i,
    ) by {
        if i < graph_nodes(g0).len() {
            assert(node_present(graph_nodes(g0), i));
        }
    }
    assert forall|x: NodeID, i: u32| #[trigger]
        map_pairs(m1).contains((x, i)) <==> (i < after.nodes.len() && after.nodes[i as int]
            == x) by {
        if i < before.nodes.len() {
            assert(map_pairs(m0).contains((x, i)) <==> before.nodes[i as int] == x);
        } else {
            assert(!map_pairs(m0).contains((x, i)));
        }
    }
}

/// Adds a passage from the area in node slot `a_idx` to area `b`, which gets
/// a node slot where it has none.
fn ensure_end_exists_and_insert_edge(
    a_idx: u32,
    b: NodeID,
    node_map: &mut BiMap<NodeID, u32>,
    graph: &mut StableDiGraph<NodeID, ()>,
) -> (e: EdgeRef)
    requires
        consistent(*old(graph), *old(node_map)),
        a_idx < stored(*old(graph)).nodes.len(),
        stored(*old(graph)).with_node(b).nodes.len() <= u32::MAX,
        stored(*old(graph)).free.len() > 0 || stored(*old(graph)).edges.len() < u32::MAX,
    ensures
        consistent(*final(graph), *final(node_map)),
        stored(*final(graph)) == stored(*old(graph)).add_edge_from(a_idx as int, b),
        e.index == stored(*old(graph)).next_edge_slot(),
    no_unwind
{
    let ghost g0 = *graph;
    let ghost m0 = *node_map;
    let b_idx: u32 = match node_map::get_by_left(node_map, b) {
        Some(b_idx) => {
            proof {
                lemma_known_node(g0, m0, b, b_idx);
            }
            b_idx
        },
        None => {
            proof {
                lemma_unknown_node(g0, m0, b);
            }
            let b_index = stable_graph::add_node(graph, b);
            node_map::insert(node_map, b, b_index);
            proof {
                lemma_node_added(g0, m0, *graph, *node_map, b);
                stored(*graph).lemma_node_slot(b_index as int);
            }
            b_index
        },
    };
    let ghost g1 = *graph;
    proof {
        assert(stored(g1) == stored(g0).with_node(b));
        assert(stored(g1).node_slot(b) == b_idx);
        assert(node_present(graph_nodes(g1), a_idx as int));
        assert(node_present(graph_nodes(g1), b_idx as int));
        stored(g1).lemma_with_edge(a_idx as int, b_idx as int);
    }
    let e = stable_graph::add_edge(graph, a_idx, b_idx);
    proof {
        assert(stored(*graph).nodes =~= stored(g1).nodes);
        assert(stored(*graph) == stored(g1).with_edge(a_idx as int, b_idx as int));
    }
    e
}

/// Adds a passage from area `a` to area `b`; each gets a node slot where it
/// has none, `a` first.
fn insert_edge(
    graph: &mut StableDiGraph<NodeID, ()>,
    node_map: &mut BiMap<NodeID, u32>,
    a: NodeID,
    b: NodeID,
) -> (e: EdgeRef)
    requires
        consistent(*old(graph), *old(node_map)),
        stored(*old(graph)).can_add_edge(a, b),
    ensures
        consistent(*final(graph), *final(node_map)),
        stored(*final(graph)) == stored(*old(graph)).add_edge(a, b),
        e.index == stored(*old(graph)).next_edge_slot(),
    no_unwind
{
    let ghost g0 = *graph;
    let ghost m0 = *node_map;
    match node_map::get_by_left(node_map, a) {
        Some(a_idx) => {
            proof {
                lemma_known_node(g0, m0, a, a_idx);
            }
            ensure_end_exists_and_insert_edge(a_idx, b, node_map, graph)
        },
        None => {
            proof {
                lemma_unknown_node(g0, m0, a);
                assert(stored(g0).with_node(a).nodes.len() <= stored(g0).with_node(a).with_node(
                    b,
                ).nodes.len());
            }
            let a_index = stable_graph::add_node(graph, a);
            node_map::insert(node_map, a, a_index);
            proof {
                lemma_node_added(g0, m0, *graph, *node_map, a);
                stored(*graph).lemma_node_slot(a_index as int);
            }
            ensure_end_exists_and_insert_edge(a_index, b, node_map, graph)
        },
    }
}

/// Removes the passage in slot `e`, where there is one.
fn take_edge(graph: &mut StableDiGraph<NodeID, ()>, node_map: &BiMap<NodeID, u32>, e: EdgeRef) -> (removed:
    Option<()>)
    requires
        consistent(*old(graph), *node_map),
    ensures
        consistent(*final(graph), *node_map),
        removed is Some <==> stored(*old(graph)).live(e),
        stored(*final(graph)) == stored(*old(graph)).remove_edge(e),
    no_unwind
{
    proof {
        stored(*graph).lemma_remove_edge(e);
    }
    let removed = stable_graph::remove_edge(graph, e);
    proof {
        assert(stored(*graph).nodes =~= stored(*old(graph)).nodes);
    }
    removed
}

impl Graph for GameGraph {
    closed spec fn view(&self) -> GraphModel {
        stored(self.graph)
    }

    fn from_edges(edges: &[(NodeID, NodeID)]) -> (g: Self) {
        let mut graph = stable_graph::new_graph();
        let mut node_map = node_map::new_map();
        proof {
            assert(stored(graph).nodes =~= GraphModel::empty().nodes);
            assert(stored(graph).edges =~= GraphModel::empty().edges);
            assert(stored(graph).free =~= GraphModel::empty().free);
        }
        proof {
            assert(stored(graph).live_slots() =~= Set::<int>::empty());
        }
        let mut i: usize = 0;
        while i < edges.len()
            invariant
                i <= edges@.len(),
                2 * edges@.len() <= u32::MAX,
                consistent(graph, node_map),
                stored(graph) == GraphModel::from_edges_upto(edges@, i as int),
                stored(graph).nodes.len() <= 2 * i,
                stored(graph).edges.len() == i,
                stored(graph).free.len() == 0,
                stored(graph).edge_count() == i,
                forall|e: EdgeRef| #[trigger] stored(graph).live(e) <==> e.index < i,
                forall|e: EdgeRef|
                    e.index < i ==> #[trigger] stored(graph).endpoints(e) == Some(
                        edges@[e.index as int],
                    ),
            decreases edges@.len() - i,
        {
            let (a, b) = edges[i];
            let ghost m = stored(graph);
            proof {
                assert(m.with_node(a).nodes.len() <= m.nodes.len() + 1);
                assert(m.with_node(a).with_node(b).nodes.len() <= m.with_node(a).nodes.len() + 1);
                m.lemma_add_edge(a, b);
            }
            insert_edge(&mut graph, &mut node_map, a, b);
            proof {
                assert forall|e: EdgeRef| e.index < i + 1 implies #[trigger] stored(
                    graph,
                ).endpoints(e) == Some(edges@[e.index as int]) by {
                    if e.index < i {
                        assert(m.endpoints(e) == Some(edges@[e.index as int]));
                        assert(m.live(e));
                    }
                }
            }
            i += 1;
        }
        GameGraph { graph, node_map }
    }

    fn edge_count(&self) -> (n: usize) {
        let n = stable_graph::edge_count(&self.graph);
        proof {
            use_type_invariant(self);
            assert(occupied_slots(graph_edges(self.graph)) =~= self@.live_slots());
        }
        n
    }

    fn edge_endpoints(&self, e: EdgeRef) -> (ends: Option<(NodeID, NodeID)>) {
        proof {
            use_type_invariant(self);
        }
        match stable_graph::edge_endpoints(&self.graph, e) {
            None => None,
            Some((n1, n2)) => {
                proof {
                    assert(self@.occupied(e.index as int));
                    assert(map_pairs(self.node_map).contains((self@.nodes[n1 as int], n1)));
                    assert(map_pairs(self.node_map).contains((self@.nodes[n2 as int], n2)));
                }
                match node_map::get_by_right(&self.node_map, n1) {
                    None => None,
                    Some(id1) => match node_map::get_by_right(&self.node_map, n2) {
                        None => None,
                        Some(id2) => Some((id1, id2)),
                    },
                }
            },
        }
    }

    fn edge_indices(&self) -> (refs: Vec<EdgeRef>) {
        proof {
            use_type_invariant(self);
        }
        stable_graph::edge_indices(&self.graph)
    }

    fn add_edge(&mut self, node1: NodeID, node2: NodeID) -> (e: EdgeRef) {
        proof {
            use_type_invariant(&*self);
            self@.lemma_add_edge(node1, node2);
        }
        insert_edge(&mut self.graph, &mut self.node_map, node1, node2)
    }

    fn remove_edge(&mut self, e: EdgeRef) -> (removed: Option<()>) {
        proof {
            use_type_invariant(&*self);
            self@.lemma_remove_edge(e);
        }
        take_edge(&mut self.graph, &self.node_map, e)
    }

    fn game_beatable(&self) -> (verdict: Result<(), Error>) {
        let (components, links) = stable_graph::condense(&self.graph);
        proof {
            use_type_invariant(self);
            assert(self@.nodes.map_values(|id: NodeID| Some(id)) =~= graph_nodes(self.graph)) by {
                assert forall|i: int| 0 <= i < graph_nodes(self.graph).len() implies Some(
                    self@.nodes[i],
                ) == graph_nodes(self.graph)[i] by {
                    assert(node_present(graph_nodes(self.graph), i));
                }
            }
        }
        single_root(&components, &links)
    }
}

} // verus!
