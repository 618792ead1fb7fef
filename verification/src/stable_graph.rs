//! Contracts for the `petgraph` stable graph that stores areas and passages.
//!
//! Nothing here is proved: each function states what `petgraph` does, over
//! three sequences that name what a stable graph holds. Where a function is
//! marked `no_unwind`, `petgraph` does not panic on the inputs that its
//! `requires` admits.
use vstd::prelude::*;
use petgraph::stable_graph::EdgeIndex;
use petgraph::stable_graph::NodeIndex;
use petgraph::stable_graph::StableDiGraph;
use petgraph::stable_graph::StableGraph;
use petgraph::Directed;
use crate::model::EdgeRef;
use crate::NodeID;

verus! {

#[verifier::external_type_specification]
#[verifier::external_body]
pub struct ExDirected(Directed);

#[verifier::external_type_specification]
#[verifier::external_body]
#[verifier::reject_recursive_types(N)]
#[verifier::reject_recursive_types(E)]
#[verifier::reject_recursive_types(Ty)]
#[verifier::reject_recursive_types(Ix)]
pub struct ExStableGraph<N, E, Ty, Ix>(StableGraph<N, E, Ty, Ix>);

/// The node slots of a stable graph in index order: the area each holds, or
/// `None` where a node was removed.
pub uninterp spec fn graph_nodes(g: StableDiGraph<NodeID, ()>) -> Seq<Option<NodeID>>;

/// The edge slots of a stable graph in index order: the node slots that a
/// live edge leaves and enters, or `None` where the slot is vacant.
pub uninterp spec fn graph_edges(g: StableDiGraph<NodeID, ()>) -> Seq<Option<(int, int)>>;

/// The vacant edge slots of a stable graph, the one vacated last standing
/// last.
pub uninterp spec fn graph_free_edges(g: StableDiGraph<NodeID, ()>) -> Seq<int>;

/// What `petgraph::algo::condensation` makes, with `make_acyclic` set, of the
/// dense graph that a stable graph with these node and edge slots converts
/// into: the areas of each component, and for each edge between components
/// the components it leaves and enters, both in index order.
pub uninterp spec fn condensation_of(
    nodes: Seq<Option<NodeID>>,
    edges: Seq<Option<(int, int)>>,
) -> (Seq<Seq<NodeID>>, Seq<(usize, usize)>);

/// Slot `e` of `edges` exists and holds an edge.
pub open spec fn slot_occupied(edges: Seq<Option<(int, int)>>, e: int) -> bool {
    0 <= e < edges.len() && edges[e] is Some
}

/// The occupied slots of `edges`.
pub open spec fn occupied_slots(edges: Seq<Option<(int, int)>>) -> Set<int> {
    Set::new(|e: int| slot_occupied(edges, e))
}

/// Slot `i` of `nodes` exists and holds an area.
pub open spec fn node_present(nodes: Seq<Option<NodeID>>, i: int) -> bool {
    0 <= i < nodes.len() && nodes[i] is Some
}

/// `StableGraph::new`: a graph without node slots, edge slots or vacancies.
#[verifier::external_body]
pub(crate) fn new_graph() -> (g: StableDiGraph<NodeID, ()>)
    ensures
        graph_nodes(g).len() == 0,
        graph_edges(g).len() == 0,
        graph_free_edges(g).len() == 0,
{
    StableDiGraph::new()
}

/// `StableGraph::add_node` on a graph from which no node was removed: the
/// area gets a new slot behind the others, whose index is returned. Edges
/// are untouched. `petgraph` panics when the index would be `u32::MAX`.
#[verifier::external_body]
pub(crate) fn add_node(g: &mut StableDiGraph<NodeID, ()>, id: NodeID) -> (slot: u32)
    requires
        forall|i: int| 0 <= i < graph_nodes(*old(g)).len() ==> node_present(graph_nodes(*old(g)), i),
        graph_nodes(*old(g)).len() < u32::MAX,
    ensures
        slot == graph_nodes(*old(g)).len(),
        graph_nodes(*final(g)) == graph_nodes(*old(g)).push(Some(id)),
        graph_edges(*final(g)) == graph_edges(*old(g)),
        graph_free_edges(*final(g)) == graph_free_edges(*old(g)),
    no_unwind
{
    g.add_node(id).index() as u32
}

/// `StableGraph::add_edge` between two present nodes: the edge takes the
/// slot vacated last, or a new slot behind the others where none is vacant,
/// and the slot's index is returned. Nodes and other edges are untouched.
/// `petgraph` panics where a node is absent or the new index would be
/// `u32::MAX`.
#[verifier::external_body]
pub(crate) fn add_edge(g: &mut StableDiGraph<NodeID, ()>, s: u32, t: u32) -> (e: EdgeRef)
    requires
        node_present(graph_nodes(*old(g)), s as int),
        node_present(graph_nodes(*old(g)), t as int),
        graph_free_edges(*old(g)).len() > 0 || graph_edges(*old(g)).len() < u32::MAX,
    ensures
        graph_nodes(*final(g)) == graph_nodes(*old(g)),
        graph_free_edges(*old(g)).len() > 0 ==> {
            &&& e.index == graph_free_edges(*old(g)).last()
            &&& graph_edges(*final(g)) == graph_edges(*old(g)).update(
                e.index as int,
                Some((s as int, t as int)),
            )
            &&& graph_free_edges(*final(g)) == graph_free_edges(*old(g)).drop_last()
        },
        graph_free_edges(*old(g)).len() == 0 ==> {
            &&& e.index == graph_edges(*old(g)).len()
            &&& graph_edges(*final(g)) == graph_edges(*old(g)).push(Some((s as int, t as int)))
            &&& graph_free_edges(*final(g)) == graph_free_edges(*old(g))
        },
    no_unwind
{
    let e = g.add_edge(NodeIndex::new(s as usize), NodeIndex::new(t as usize), ());
    EdgeRef { index: e.index() as u32 }
}

/// `StableGraph::remove_edge`: vacates the slot of a live edge and puts it
/// last in the free list; changes nothing and returns `None` for an index
/// that names no live edge. Nodes stay.
#[verifier::external_body]
pub(crate) fn remove_edge(g: &mut StableDiGraph<NodeID, ()>, e: EdgeRef) -> (removed: Option<()>)
    ensures
        removed is Some <==> slot_occupied(graph_edges(*old(g)), e.index as int),
        graph_nodes(*final(g)) == graph_nodes(*old(g)),
        removed is Some ==> {
            &&& graph_edges(*final(g)) == graph_edges(*old(g)).update(e.index as int, None)
            &&& graph_free_edges(*final(g)) == graph_free_edges(*old(g)).push(e.index as int)
        },
        removed is None ==> {
            &&& graph_edges(*final(g)) == graph_edges(*old(g))
            &&& graph_free_edges(*final(g)) == graph_free_edges(*old(g))
        },
    no_unwind
{
    g.remove_edge(EdgeIndex::new(e.index as usize))
}

/// `StableGraph::edge_endpoints`: the node slots that a live edge leaves and
/// enters, `None` for an index that names no live edge.
#[verifier::external_body]
pub(crate) fn edge_endpoints(g: &StableDiGraph<NodeID, ()>, e: EdgeRef) -> (ends: Option<
    (u32, u32),
>)
    ensures
        ends is Some <==> slot_occupied(graph_edges(*g), e.index as int),
        ends matches Some(st) ==> graph_edges(*g)[e.index as int] == Some(
            (st.0 as int, st.1 as int),
        ),
{
    match g.edge_endpoints(EdgeIndex::new(e.index as usize)) {
        Some((s, t)) => Some((s.index() as u32, t.index() as u32)),
        None => None,
    }
}

/// `StableGraph::edge_count`: the number of live edges.
#[verifier::external_body]
pub(crate) fn edge_count(g: &StableDiGraph<NodeID, ()>) -> (n: usize)
    ensures
        n == occupied_slots(graph_edges(*g)).len(),
{
    g.edge_count()
}

/// `StableGraph::edge_indices`: the indices of the live edges, ascending.
#[verifier::external_body]
pub(crate) fn edge_indices(g: &StableDiGraph<NodeID, ()>) -> (refs: Vec<EdgeRef>)
    ensures
        forall|i: int, j: int| 0 <= i < j < refs@.len() ==> refs@[i].index < refs@[j].index,
        forall|e: EdgeRef| refs@.contains(e) <==> slot_occupied(graph_edges(*g), e.index as int),
{
    g.edge_indices().map(|e| EdgeRef { index: e.index() as u32 }).collect()
}

/// `petgraph::algo::condensation` with `make_acyclic` set, on the dense
/// graph that `StableGraph::map` and the conversion into `petgraph::Graph`
/// make of the stable graph. The outcome is a function of the node and edge
/// slots alone; the contract names it and says nothing else of it.
#[verifier::external_body]
pub(crate) fn condense(g: &StableDiGraph<NodeID, ()>) -> (c: (Vec<Vec<NodeID>>, Vec<(usize, usize)>))
    ensures
        (c.0.deep_view(), c.1@) == condensation_of(graph_nodes(*g), graph_edges(*g)),
{
    let dense: petgraph::Graph<NodeID, ()> = g.map(|_, id| *id, |_, _| ()).into();
    let (nodes, edges) = petgraph::algo::condensation(dense, true).into_nodes_edges();
    (
        nodes.into_iter().map(|n| n.weight).collect(),
        edges.iter().map(|e| (e.source().index(), e.target().index())).collect(),
    )
}

} // verus!
