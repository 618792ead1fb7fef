//! The mathematical model of the multigraph.
//!
//! Areas occupy node slots, passages occupy edge slots. A passage is known by
//! the slot it occupies for as long as it lives. A slot that a removal vacates
//! is kept in the free list and handed out again, last vacated first, before
//! any new slot is made.
use vstd::prelude::*;
use vstd::seq_lib::to_multiset_update;
use vstd::set_lib::lemma_int_range;
use vstd::set_lib::lemma_len_subset;
use vstd::set_lib::set_int_range;
use crate::NodeID;

verus! {

/// A stable reference to one passage: the edge slot it occupies.
#[derive(Clone, Copy, Debug, PartialEq, Eq, Hash, Structural)]
pub struct EdgeRef {
    pub index: u32,
}

impl EdgeRef {
    /// The reference to the passage in slot `index`.
    pub fn new(index: u32) -> (e: EdgeRef)
        ensures
            e.index == index,
    {
        EdgeRef { index }
    }

    /// The slot this reference names.
    pub fn index(self) -> (index: u32)
        ensures
            index == self.index,
    {
        self.index
    }
}

/// What a multigraph holds.
pub struct GraphModel {
    /// The area in each node slot, in the order the areas were first named.
    pub nodes: Seq<NodeID>,
    /// For each edge slot the node slots that its passage leaves and enters,
    /// or `None` where the slot is vacant.
    pub edges: Seq<Option<(int, int)>>,
    /// The vacant edge slots; the one vacated last stands last and is the
    /// next to be handed out.
    pub free: Seq<int>,
}

impl GraphModel {
    /// The graph without areas or passages.
    pub open spec fn empty() -> GraphModel {
        GraphModel { nodes: Seq::empty(), edges: Seq::empty(), free: Seq::empty() }
    }

    /// Slot `e` exists and holds no passage.
    pub open spec fn vacant(self, e: int) -> bool {
        0 <= e < self.edges.len() && self.edges[e] is None
    }

    /// Slot `e` exists and holds a passage.
    pub open spec fn occupied(self, e: int) -> bool {
        0 <= e < self.edges.len() && self.edges[e] is Some
    }

    /// The node slot that the passage in slot `e` leaves.
    pub open spec fn source(self, e: int) -> int {
        let st = self.edges[e]->0;
        st.0
    }

    /// The node slot that the passage in slot `e` enters.
    pub open spec fn target(self, e: int) -> int {
        let st = self.edges[e]->0;
        st.1
    }

    /// No area has two node slots, every passage joins existing node slots,
    /// the free list holds exactly the vacant edge slots, each once, and both
    /// stores fit the 32-bit indices that name their slots.
    pub open spec fn wf(self) -> bool {
        &&& self.nodes.len() <= u32::MAX
        &&& self.edges.len() <= u32::MAX
        &&& self.nodes.no_duplicates()
        &&& self.free.no_duplicates()
        &&& forall|e: int| #[trigger]
            self.occupied(e) ==> {
                &&& 0 <= self.source(e) < self.nodes.len()
                &&& 0 <= self.target(e) < self.nodes.len()
            }
        &&& forall|k: int| 0 <= k < self.free.len() ==> self.vacant(#[trigger] self.free[k])
        &&& forall|e: int| #[trigger] self.vacant(e) ==> self.free.contains(e)
    }

    /// `e` refers to a passage of the graph.
    pub open spec fn live(self, e: EdgeRef) -> bool {
        self.occupied(e.index as int)
    }

    /// The areas that passage `e` leaves and enters, or `None` where `e`
    /// refers to no passage.
    pub open spec fn endpoints(self, e: EdgeRef) -> Option<(NodeID, NodeID)> {
        if self.live(e) {
            let st = self.edges[e.index as int]->0;
            Some((self.nodes[st.0], self.nodes[st.1]))
        } else {
            None
        }
    }

    /// The area that passage `e` leaves.
    pub open spec fn from_area(self, e: EdgeRef) -> NodeID {
        self.nodes[self.source(e.index as int)]
    }

    /// The area that passage `e` enters.
    pub open spec fn to_area(self, e: EdgeRef) -> NodeID {
        self.nodes[self.target(e.index as int)]
    }

    /// For each edge slot the node slot that its passage leaves, or `None`
    /// for a vacant slot.
    pub open spec fn departures(self) -> Seq<Option<int>> {
        Seq::new(
            self.edges.len(),
            |e: int|
                if self.edges[e] is Some {
                    Some(self.source(e))
                } else {
                    None
                },
        )
    }

    /// The occupied edge slots.
    pub open spec fn live_slots(self) -> Set<int> {
        Set::new(|e: int| self.occupied(e))
    }

    /// The number of passages.
    pub open spec fn edge_count(self) -> nat {
        self.live_slots().len()
    }

    /// The graph has a node slot for area `id`.
    pub open spec fn has_node(self, id: NodeID) -> bool {
        self.nodes.contains(id)
    }

    /// The node slot of area `id`.
    pub open spec fn node_slot(self, id: NodeID) -> int {
        choose|i: int| 0 <= i < self.nodes.len() && self.nodes[i] == id
    }

    /// The graph with a node slot for area `id`, appended where it had none.
    pub open spec fn with_node(self, id: NodeID) -> GraphModel {
        if self.has_node(id) {
            self
        } else {
            GraphModel { nodes: self.nodes.push(id), ..self }
        }
    }

    /// The slot that the next new passage gets: the one vacated last, or a
    /// new slot behind the others where none is vacant.
    pub open spec fn next_edge_slot(self) -> int {
        if self.free.len() > 0 {
            self.free.last()
        } else {
            self.edges.len() as int
        }
    }

    /// The graph with a new passage from node slot `s` to node slot `t`.
    pub open spec fn with_edge(self, s: int, t: int) -> GraphModel {
        if self.free.len() > 0 {
            GraphModel {
                edges: self.edges.update(self.free.last(), Some((s, t))),
                free: self.free.drop_last(),
                ..self
            }
        } else {
            GraphModel { edges: self.edges.push(Some((s, t))), ..self }
        }
    }

    /// The graph with a new passage from node slot `s` to area `b`, which
    /// gets a node slot where it had none.
    pub open spec fn add_edge_from(self, s: int, b: NodeID) -> GraphModel {
        let m = self.with_node(b);
        m.with_edge(s, m.node_slot(b))
    }

    /// The graph with a new passage from area `a` to area `b`; each gets a
    /// node slot where it had none, `a` first.
    pub open spec fn add_edge(self, a: NodeID, b: NodeID) -> GraphModel {
        let m = self.with_node(a);
        m.add_edge_from(m.node_slot(a), b)
    }

    /// A passage from `a` to `b` can be added within the 32-bit limits.
    pub open spec fn can_add_edge(self, a: NodeID, b: NodeID) -> bool {
        &&& self.with_node(a).with_node(b).nodes.len() <= u32::MAX
        &&& (self.free.len() > 0 || self.edges.len() < u32::MAX)
    }

    /// The graph without passage `e`: its slot is vacated and put last in the
    /// free list. Areas stay. Unchanged where `e` refers to no passage.
    pub open spec fn remove_edge(self, e: EdgeRef) -> GraphModel {
        if self.live(e) {
            GraphModel {
                edges: self.edges.update(e.index as int, None),
                free: self.free.push(e.index as int),
                ..self
            }
        } else {
            self
        }
    }

    /// The graph after the passages `e1` = a->b and `e2` = c->d have exchanged
    /// their far ends: a->d now occupies the slot of `e2`, and c->b the slot of
    /// `e1`. Nothing else changes.
    pub open spec fn exchange(self, e1: EdgeRef, e2: EdgeRef) -> GraphModel {
        let ab = self.edges[e1.index as int]->0;
        let cd = self.edges[e2.index as int]->0;
        GraphModel {
            edges: self.edges.update(e1.index as int, Some((cd.0, ab.1))).update(
                e2.index as int,
                Some((ab.0, cd.1)),
            ),
            ..self
        }
    }

    /// The graph built from nothing by adding, in order, one passage for each
    /// of the first `n` pairs.
    pub open spec fn from_edges_upto(pairs: Seq<(NodeID, NodeID)>, n: int) -> GraphModel
        decreases n,
    {
        if n <= 0 {
            GraphModel::empty()
        } else {
            GraphModel::from_edges_upto(pairs, n - 1).add_edge(pairs[n - 1].0, pairs[n - 1].1)
        }
    }

    /// The graph built from nothing by adding one passage for each pair, in
    /// order.
    pub open spec fn from_edges(pairs: Seq<(NodeID, NodeID)>) -> GraphModel {
        GraphModel::from_edges_upto(pairs, pairs.len() as int)
    }

    /// `other` has the areas, the slots and the free list of `self`, the same
    /// slots are occupied, the passage in each slot enters the area it entered
    /// in `self`, and as many passages leave each area as in `self`: only
    /// which passage leaves from where may differ.
    pub open spec fn rewired_to(self, other: GraphModel) -> bool {
        &&& other.nodes == self.nodes
        &&& other.free == self.free
        &&& other.edges.len() == self.edges.len()
        &&& forall|e: int| #[trigger] self.occupied(e) <==> other.occupied(e)
        &&& forall|e: int| #[trigger]
            self.occupied(e) ==> other.target(e) == self.target(e)
        &&& other.departures().to_multiset() == self.departures().to_multiset()
    }

    /// The occupied slots are finitely many, at most as many as there are
    /// slots.
    pub proof fn lemma_live_slots_finite(self)
        ensures
            self.live_slots().finite(),
            self.live_slots().len() <= self.edges.len(),
    {
        let all = set_int_range(0, self.edges.len() as int);
        lemma_int_range(0, self.edges.len() as int);
        assert(self.live_slots().subset_of(all));
        lemma_len_subset(self.live_slots(), all);
    }

    /// In a well-formed graph the node slot of the area in slot `i` is `i`.
    pub proof fn lemma_node_slot(self, i: int)
        requires
            self.nodes.no_duplicates(),
            0 <= i < self.nodes.len(),
        ensures
            self.node_slot(self.nodes[i]) == i,
            self.has_node(self.nodes[i]),
    {
        assert(self.nodes.contains(self.nodes[i]));
    }

    /// An area that has a node slot is found in it.
    pub proof fn lemma_node_slot_of(self, id: NodeID)
        requires
            self.has_node(id),
        ensures
            0 <= self.node_slot(id) < self.nodes.len(),
            self.nodes[self.node_slot(id)] == id,
    {
        let i = choose|i: int| 0 <= i < self.nodes.len() && self.nodes[i] == id;
        assert(0 <= i < self.nodes.len() && self.nodes[i] == id);
    }

    /// Giving an area a node slot keeps the graph well formed and moves no
    /// other area.
    pub proof fn lemma_with_node(self, id: NodeID)
        requires
            self.wf(),
            self.with_node(id).nodes.len() <= u32::MAX,
        ensures
            self.with_node(id).wf(),
            self.with_node(id).has_node(id),
            self.with_node(id).edges == self.edges,
            self.with_node(id).free == self.free,
            forall|x: NodeID| self.has_node(x) ==> #[trigger] self.with_node(id).has_node(x),
            forall|i: int|
                0 <= i < self.nodes.len() ==> #[trigger] self.with_node(id).nodes[i]
                    == self.nodes[i],
            !self.has_node(id) ==> self.with_node(id).node_slot(id) == self.nodes.len(),
    {
        let m = self.with_node(id);
        if !self.has_node(id) {
            assert(m.nodes[self.nodes.len() as int] == id);
            assert(m.nodes.contains(id));
            assert forall|i: int, j: int|
                0 <= i < m.nodes.len() && 0 <= j < m.nodes.len() && i != j implies m.nodes[i]
                != m.nodes[j] by {
                if i < self.nodes.len() {
                    assert(self.nodes.contains(m.nodes[i]));
                }
                if j < self.nodes.len() {
                    assert(self.nodes.contains(m.nodes[j]));
                }
            }
            m.lemma_node_slot(self.nodes.len() as int);
            assert forall|x: NodeID| self.has_node(x) implies #[trigger] m.has_node(x) by {
                let i = choose|i: int| 0 <= i < self.nodes.len() && self.nodes[i] == x;
                assert(m.nodes[i] == x);
            }
            assert forall|e: int| #[trigger] m.occupied(e) implies {
                &&& 0 <= m.source(e) < m.nodes.len()
                &&& 0 <= m.target(e) < m.nodes.len()
            } by {
                assert(self.occupied(e));
            }
            assert forall|e: int| #[trigger] m.vacant(e) implies m.free.contains(e) by {
                assert(self.vacant(e));
            }
            assert forall|k: int| 0 <= k < m.free.len() implies m.vacant(#[trigger] m.free[k]) by {
                assert(self.vacant(self.free[k]));
            }
        }
    }

    /// Adding a passage between existing node slots keeps the graph well
    /// formed, occupies exactly the next slot and leaves every other slot as
    /// it was.
    pub proof fn lemma_with_edge(self, s: int, t: int)
        requires
            self.wf(),
            0 <= s < self.nodes.len(),
            0 <= t < self.nodes.len(),
            self.free.len() > 0 || self.edges.len() < u32::MAX,
        ensures
            self.with_edge(s, t).wf(),
            self.with_edge(s, t).nodes == self.nodes,
            0 <= self.next_edge_slot() < self.with_edge(s, t).edges.len(),
            self.next_edge_slot() <= self.edges.len(),
            !self.occupied(self.next_edge_slot()),
            self.with_edge(s, t).edges[self.next_edge_slot()] == Some((s, t)),
            forall|e: int|
                0 <= e < self.edges.len() && e != self.next_edge_slot() ==> #[trigger] self.with_edge(
                    s,
                    t,
                ).edges[e] == self.edges[e],
    {
        let m = self.with_edge(s, t);
        let slot = self.next_edge_slot();
        if self.free.len() > 0 {
            let last = self.free.len() - 1;
            assert(self.vacant(self.free[last]));
            assert forall|k: int| 0 <= k < m.free.len() implies m.vacant(#[trigger] m.free[k]) by {
                assert(self.vacant(self.free[k]));
                assert(self.free[k] != self.free[last]);
            }
            assert forall|e: int| #[trigger] m.vacant(e) implies m.free.contains(e) by {
                assert(self.vacant(e));
                let k = choose|k: int| 0 <= k < self.free.len() && self.free[k] == e;
                assert(k != last);
                assert(m.free[k] == e);
            }
            assert forall|e: int| #[trigger] m.occupied(e) implies {
                &&& 0 <= m.source(e) < m.nodes.len()
                &&& 0 <= m.target(e) < m.nodes.len()
            } by {
                if e != slot {
                    assert(self.occupied(e));
                }
            }
        } else {
            assert forall|e: int| #[trigger] m.vacant(e) implies m.free.contains(e) by {
                assert(self.vacant(e));
            }
            assert forall|e: int| #[trigger] m.occupied(e) implies {
                &&& 0 <= m.source(e) < m.nodes.len()
                &&& 0 <= m.target(e) < m.nodes.len()
            } by {
                if e != slot {
                    assert(self.occupied(e));
                }
            }
        }
    }

    /// Adding a passage keeps the graph well formed; the passage occupies the
    /// next slot and joins the two areas.
    pub proof fn lemma_add_edge(self, a: NodeID, b: NodeID)
        requires
            self.wf(),
            self.can_add_edge(a, b),
        ensures
            self.add_edge(a, b).wf(),
            self.add_edge(a, b).endpoints(EdgeRef { index: self.next_edge_slot() as u32 }) == Some(
                (a, b),
            ),
            0 <= self.next_edge_slot() <= self.edges.len(),
            self.next_edge_slot() < u32::MAX,
            !self.occupied(self.next_edge_slot()),
            forall|e: EdgeRef|
                self.live(e) ==> #[trigger] self.add_edge(a, b).endpoints(e) == self.endpoints(e),
            forall|e: EdgeRef| #[trigger]
                self.add_edge(a, b).live(e) <==> (self.live(e) || e.index
                    == self.next_edge_slot()),
            self.add_edge(a, b).edge_count() == self.edge_count() + 1,
            self.nodes.len() <= self.add_edge(a, b).nodes.len() <= self.nodes.len() + 2,
            self.free.len() > 0 ==> self.add_edge(a, b).edges.len() == self.edges.len()
                && self.add_edge(a, b).free.len() == self.free.len() - 1,
            self.free.len() == 0 ==> self.add_edge(a, b).edges.len() == self.edges.len() + 1
                && self.add_edge(a, b).free.len() == 0,
    {
        let m1 = self.with_node(a);
        assert(m1.nodes.len() <= m1.with_node(b).nodes.len());
        self.lemma_with_node(a);
        m1.lemma_node_slot_of(a);
        let s = m1.node_slot(a);
        let m2 = m1.with_node(b);
        m1.lemma_with_node(b);
        m2.lemma_node_slot_of(b);
        let t = m2.node_slot(b);
        m2.lemma_with_edge(s, t);
        let m3 = m2.with_edge(s, t);
        assert(m3 == self.add_edge(a, b));
        assert(m2.nodes[s] == a);
        assert forall|e: EdgeRef| self.live(e) implies #[trigger] m3.endpoints(e) == self.endpoints(
            e,
        ) by {
            let i = e.index as int;
            assert(self.occupied(i));
            assert(m3.edges[i] == self.edges[i]);
            let st = self.edges[i]->0;
            assert(m1.nodes[st.0] == self.nodes[st.0]);
            assert(m1.nodes[st.1] == self.nodes[st.1]);
            assert(m2.nodes[st.0] == m1.nodes[st.0]);
            assert(m2.nodes[st.1] == m1.nodes[st.1]);
        }
        let slot = self.next_edge_slot();
        assert forall|e: int| #[trigger] m3.occupied(e) <==> (self.occupied(e) || e == slot) by {
            if 0 <= e < self.edges.len() && e != slot {
                assert(m3.edges[e] == self.edges[e]);
            }
        }
        assert forall|e: EdgeRef| #[trigger]
            m3.live(e) <==> (self.live(e) || e.index == slot) by {
            assert(m3.occupied(e.index as int) <==> (self.occupied(e.index as int) || e.index
                == slot));
        }
        self.lemma_live_slots_finite();
        assert(m3.live_slots() =~= self.live_slots().insert(slot));
    }

    /// Removing a passage keeps the graph well formed and leaves every other
    /// passage as it was.
    pub proof fn lemma_remove_edge(self, e: EdgeRef)
        requires
            self.wf(),
        ensures
            self.remove_edge(e).wf(),
            !self.remove_edge(e).live(e),
            forall|other: EdgeRef|
                other != e ==> #[trigger] self.remove_edge(e).endpoints(other) == self.endpoints(
                    other,
                ),
            self.live(e) ==> self.remove_edge(e).edge_count() == self.edge_count() - 1,
    {
        let m = self.remove_edge(e);
        if self.live(e) {
            let i = e.index as int;
            self.lemma_live_slots_finite();
            assert(m.live_slots() =~= self.live_slots().remove(i));
            assert(self.live_slots().contains(i));
            assert forall|k: int| 0 <= k < m.free.len() implies m.vacant(#[trigger] m.free[k]) by {
                if k < self.free.len() {
                    assert(self.vacant(self.free[k]));
                }
            }
            assert forall|x: int| #[trigger] m.vacant(x) implies m.free.contains(x) by {
                if x == i {
                    assert(m.free[self.free.len() as int] == i);
                } else {
                    assert(self.vacant(x));
                    let k = choose|k: int| 0 <= k < self.free.len() && self.free[k] == x;
                    assert(m.free[k] == x);
                }
            }
            assert forall|j: int, k: int|
                0 <= j < m.free.len() && 0 <= k < m.free.len() && j != k implies m.free[j]
                != m.free[k] by {
                if j < self.free.len() {
                    assert(self.vacant(self.free[j]));
                }
                if k < self.free.len() {
                    assert(self.vacant(self.free[k]));
                }
            }
            assert forall|x: int| #[trigger] m.occupied(x) implies {
                &&& 0 <= m.source(x) < m.nodes.len()
                &&& 0 <= m.target(x) < m.nodes.len()
            } by {
                assert(self.occupied(x));
            }
        }
    }

    /// An exchange is the same graph as two removals followed by two
    /// additions: both passages leave before either new one enters, and the
    /// new ones take the vacated slots, last vacated first.
    pub proof fn lemma_exchange_by_steps(self, e1: EdgeRef, e2: EdgeRef)
        requires
            self.wf(),
            self.live(e1),
            self.live(e2),
            e1 != e2,
        ensures
            ({
                let ab = self.endpoints(e1)->0;
                let cd = self.endpoints(e2)->0;
                let removed = self.remove_edge(e1).remove_edge(e2);
                &&& removed.next_edge_slot() == e2.index
                &&& removed.can_add_edge(ab.0, cd.1)
                &&& removed.add_edge(ab.0, cd.1).next_edge_slot() == e1.index
                &&& removed.add_edge(ab.0, cd.1).can_add_edge(cd.0, ab.1)
                &&& removed.add_edge(ab.0, cd.1).add_edge(cd.0, ab.1) == self.exchange(e1, e2)
            }),
    {
        let i1 = e1.index as int;
        let i2 = e2.index as int;
        assert(self.occupied(i1));
        assert(self.occupied(i2));
        let ab = self.edges[i1]->0;
        let cd = self.edges[i2]->0;
        let m1 = self.remove_edge(e1);
        self.lemma_remove_edge(e1);
        assert(m1.occupied(i2));
        let m2 = m1.remove_edge(e2);
        m1.lemma_remove_edge(e2);
        self.lemma_node_slot(ab.0);
        self.lemma_node_slot(ab.1);
        self.lemma_node_slot(cd.0);
        self.lemma_node_slot(cd.1);
        assert(m2.nodes == self.nodes);
        assert(m2.with_node(self.nodes[ab.0]) == m2);
        assert(m2.with_node(self.nodes[cd.1]) == m2);
        assert(m2.free.last() == i2);
        let m3 = m2.add_edge(self.nodes[ab.0], self.nodes[cd.1]);
        assert(m3.edges == m2.edges.update(i2, Some((ab.0, cd.1))));
        assert(m3.free == m2.free.drop_last());
        assert(m3.free == m1.free);
        assert(m3.free.last() == i1);
        assert(m3.nodes == self.nodes);
        assert(m3.with_node(self.nodes[cd.0]) == m3);
        assert(m3.with_node(self.nodes[ab.1]) == m3);
        let m4 = m3.add_edge(self.nodes[cd.0], self.nodes[ab.1]);
        assert(m4.edges == m3.edges.update(i1, Some((cd.0, ab.1))));
        assert(m4.free == m3.free.drop_last());
        assert(m4.free == self.free);
        assert(m4.edges == self.exchange(e1, e2).edges);
    }

    /// An exchange keeps the graph well formed, keeps areas, slots and the
    /// free list, keeps where every passage enters, and cross-permutes where
    /// the two passages leave from. This holds as well where the two passages
    /// share an area.
    pub proof fn lemma_exchange(self, e1: EdgeRef, e2: EdgeRef)
        requires
            self.wf(),
            self.live(e1),
            self.live(e2),
            e1 != e2,
        ensures
            self.exchange(e1, e2).wf(),
            self.rewired_to(self.exchange(e1, e2)),
            self.exchange(e1, e2).endpoints(e2) == Some(
                (self.from_area(e1), self.to_area(e2)),
            ),
            self.exchange(e1, e2).endpoints(e1) == Some(
                (self.from_area(e2), self.to_area(e1)),
            ),
            forall|e: EdgeRef|
                e != e1 && e != e2 ==> #[trigger] self.exchange(e1, e2).endpoints(e)
                    == self.endpoints(e),
            forall|e: EdgeRef| #[trigger] self.exchange(e1, e2).live(e) <==> self.live(e),
    {
        let m = self.exchange(e1, e2);
        assert(self.occupied(e1.index as int));
        assert(self.occupied(e2.index as int));
        assert forall|e: int| #[trigger] self.occupied(e) <==> m.occupied(e) by {}
        assert forall|e: int| #[trigger] m.vacant(e) implies m.free.contains(e) by {
            assert(self.vacant(e));
        }
        assert forall|k: int| 0 <= k < m.free.len() implies m.vacant(#[trigger] m.free[k]) by {
            assert(self.vacant(self.free[k]));
        }
        assert forall|e: int| #[trigger] m.occupied(e) implies {
            &&& 0 <= m.source(e) < m.nodes.len()
            &&& 0 <= m.target(e) < m.nodes.len()
        } by {
            assert(self.occupied(e));
        }
        let d = self.departures();
        let i1 = e1.index as int;
        let i2 = e2.index as int;
        let d1 = d.update(i1, d[i2]);
        assert(m.departures() =~= d1.update(i2, d[i1]));
        to_multiset_update(d, i1, d[i2]);
        to_multiset_update(d1, i2, d[i1]);
        d.to_multiset_ensures();
        assert(d.contains(d[i1]));
        assert(d.contains(d[i2]));
        assert(m.departures().to_multiset() =~= d.to_multiset());
    }
}

/// The number of passages after an exchange equals the number before.
pub proof fn exchange_preserves_edge_count(m: GraphModel, e1: EdgeRef, e2: EdgeRef)
    requires
        m.wf(),
        m.live(e1),
        m.live(e2),
        e1 != e2,
    ensures
        m.exchange(e1, e2).edge_count() == m.edge_count(),
        m.exchange(e1, e2).live_slots() == m.live_slots(),
{
    m.lemma_exchange(e1, e2);
    let n = m.exchange(e1, e2);
    assert forall|e: int| m.live_slots().contains(e) <==> n.live_slots().contains(e) by {
        assert(m.occupied(e) <==> n.occupied(e));
    }
    assert(n.live_slots() =~= m.live_slots());
}

/// Exchanging the two passages that an exchange produced restores the graph:
/// every slot holds the passage it held before, under the reference it had
/// before. An exchange returns its passages as (slot of `e2`, slot of `e1`);
/// the law holds for that order and for the other.
pub proof fn exchange_is_self_inverse(m: GraphModel, e1: EdgeRef, e2: EdgeRef)
    requires
        m.wf(),
        m.live(e1),
        m.live(e2),
        e1 != e2,
    ensures
        m.exchange(e1, e2).exchange(e2, e1) == m,
        m.exchange(e1, e2).exchange(e1, e2) == m,
        m.exchange(e1, e2).exchange(e2, e1).endpoints(e1) == m.endpoints(e1),
        m.exchange(e1, e2).exchange(e2, e1).endpoints(e2) == m.endpoints(e2),
{
    assert(m.occupied(e1.index as int));
    assert(m.occupied(e2.index as int));
    assert(m.exchange(e1, e2).exchange(e2, e1).edges =~= m.edges);
    assert(m.exchange(e1, e2).exchange(e1, e2).edges =~= m.edges);
}

/// Rewiring is reflexive and transitive, and keeps the number of passages.
pub proof fn lemma_rewired(a: GraphModel, b: GraphModel, c: GraphModel)
    requires
        a.rewired_to(b),
        b.rewired_to(c),
    ensures
        a.rewired_to(a),
        a.rewired_to(c),
        a.edge_count() == b.edge_count(),
        forall|e: EdgeRef| #[trigger] a.live(e) <==> b.live(e),
{
    assert forall|e: int| #[trigger] a.occupied(e) <==> c.occupied(e) by {
        assert(a.occupied(e) <==> b.occupied(e));
        assert(b.occupied(e) <==> c.occupied(e));
    }
    assert forall|e: int| #[trigger] a.occupied(e) implies c.target(e) == a.target(e) by {
        assert(b.occupied(e));
    }
    assert forall|e: int| a.live_slots().contains(e) <==> b.live_slots().contains(e) by {
        assert(a.occupied(e) <==> b.occupied(e));
    }
    assert(a.live_slots() =~= b.live_slots());
    assert forall|e: EdgeRef| #[trigger] a.live(e) <==> b.live(e) by {
        assert(a.occupied(e.index as int) <==> b.occupied(e.index as int));
    }
}

} // verus!
