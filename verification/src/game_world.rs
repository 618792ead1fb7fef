//! The world and its randomized rewiring.
//!
//! A world is a graph with two pools of connections that may be rearranged.
//! Each step draws two connections from one pool and exchanges where their
//! passages lead. The exchange is kept when the world can still be completed
//! and undone otherwise.
use vstd::prelude::*;
use linked_hash_set::LinkedHashSet;
use rand::rngs::StdRng;
use crate::error::Error;
use crate::graph::GameGraph;
use crate::graph::Graph;
use crate::model::exchange_is_self_inverse;
use crate::model::lemma_rewired;
use crate::model::EdgeRef;
use crate::model::GraphModel;
use crate::pool;
use crate::pool::one_way_members;
use crate::pool::two_way_members;
use crate::random;
use crate::seq_lemmas::lemma_push_new;
use crate::seq_lemmas::lemma_remove_value;

verus! {

/// A connection of one passage.
#[derive(Copy, Clone, Hash, PartialEq, Eq, Debug, Structural)]
pub struct OneWay {
    pub idx: EdgeRef,
}

/// A connection of two passages that are rearranged together: one forward,
/// one backward.
#[derive(Copy, Clone, Hash, PartialEq, Eq, Debug, Structural)]
pub struct TwoWay {
    pub idx1: EdgeRef,
    pub idx2: EdgeRef,
}

/// Two connections of one kind.
pub struct EdgePair<T>(pub T, pub T);

/// Exchanges where two passages lead.
///
/// With `edge1` = a->b and `edge2` = c->d, both passages are removed before
/// a->d and then c->b are added. The new passages take the vacated references,
/// last vacated first: a->d is returned under the reference of `edge2` and
/// c->b under the reference of `edge1`. No other passage changes, and as many
/// passages as before leave and enter each area.
pub fn swap_edges<G: Graph>(edge1: EdgeRef, edge2: EdgeRef, graph: &mut G) -> (new_edges: (
    EdgeRef,
    EdgeRef,
))
    requires
        old(graph)@.wf(),
        old(graph)@.live(edge1),
        old(graph)@.live(edge2),
        edge1 != edge2,
    ensures
        final(graph)@.wf(),
        final(graph)@ == old(graph)@.exchange(edge1, edge2),
        new_edges == (edge2, edge1),
        final(graph)@.endpoints(new_edges.0) == Some(
            (old(graph)@.from_area(edge1), old(graph)@.to_area(edge2)),
        ),
        final(graph)@.endpoints(new_edges.1) == Some(
            (old(graph)@.from_area(edge2), old(graph)@.to_area(edge1)),
        ),
        forall|e: EdgeRef|
            e != edge1 && e != edge2 ==> #[trigger] final(graph)@.endpoints(e) == old(graph)@.endpoints(e),
        forall|e: EdgeRef| #[trigger] final(graph)@.live(e) <==> old(graph)@.live(e),
        final(graph)@.edge_count() == old(graph)@.edge_count(),
        old(graph)@.rewired_to(final(graph)@),
{
    proof {
        graph@.lemma_exchange_by_steps(edge1, edge2);
        graph@.lemma_exchange(edge1, edge2);
        crate::model::exchange_preserves_edge_count(graph@, edge1, edge2);
    }
    let (edge1a, edge1b) = graph.edge_endpoints(edge1).unwrap();
    let (edge2a, edge2b) = graph.edge_endpoints(edge2).unwrap();
    graph.remove_edge(edge1);
    graph.remove_edge(edge2);
    let new_edge_id1 = graph.add_edge(edge1a, edge2b);
    let new_edge_id2 = graph.add_edge(edge2a, edge1b);
    (new_edge_id1, new_edge_id2)
}

impl OneWay {
    /// The connection made of passage `idx`.
    pub fn new(idx: EdgeRef) -> (one_way: Self)
        ensures
            one_way.idx == idx,
    {
        OneWay { idx }
    }

    /// The passage of this connection.
    pub fn get_idx(self) -> (idx: EdgeRef)
        ensures
            idx == self.idx,
    {
        self.idx
    }

    /// The graph after this connection and `other` have exchanged where they
    /// lead.
    pub open spec fn exchanged_graph(self, other: OneWay, m: GraphModel) -> GraphModel {
        m.exchange(self.idx, other.idx)
    }

    /// Exchanges where this connection and `other` lead, and returns the two
    /// new connections.
    pub fn swap<G: Graph>(&self, other: &Self, graph: &mut G) -> (pair: EdgePair<OneWay>)
        requires
            old(graph)@.wf(),
            old(graph)@.live(self.idx),
            old(graph)@.live(other.idx),
            self.idx != other.idx,
        ensures
            final(graph)@.wf(),
            final(graph)@ == self.exchanged_graph(*other, old(graph)@),
            pair.0 == *other,
            pair.1 == *self,
    {
        let (e1, e2) = swap_edges(self.idx, other.idx, graph);
        EdgePair(Self::new(e1), Self::new(e2))
    }
}

impl TwoWay {
    /// The connection made of the forward passage `idx1` and the backward
    /// passage `idx2`.
    pub fn new(idx1: EdgeRef, idx2: EdgeRef) -> (two_way: Self)
        ensures
            two_way.idx1 == idx1,
            two_way.idx2 == idx2,
    {
        TwoWay { idx1, idx2 }
    }

    /// The forward passage of this connection.
    pub fn get_idx1(self) -> (idx: EdgeRef)
        ensures
            idx == self.idx1,
    {
        self.idx1
    }

    /// The backward passage of this connection.
    pub fn get_idx2(self) -> (idx: EdgeRef)
        ensures
            idx == self.idx2,
    {
        self.idx2
    }

    /// Both passages exist, and the second leads back from where the first
    /// leads to.
    pub open spec fn matched(self, m: GraphModel) -> bool {
        &&& m.live(self.idx1)
        &&& m.live(self.idx2)
        &&& m.from_area(self.idx1) == m.to_area(self.idx2)
        &&& m.to_area(self.idx1) == m.from_area(self.idx2)
    }

    /// No forward passage of the two connections is a backward passage of
    /// either.
    pub open spec fn apart(self, other: TwoWay) -> bool {
        &&& self.idx1 != self.idx2
        &&& self.idx1 != other.idx2
        &&& other.idx1 != self.idx2
        &&& other.idx1 != other.idx2
    }

    /// The graph after this connection and `other` have exchanged where they
    /// lead: first the forward passages, then the backward ones.
    pub open spec fn exchanged_graph(self, other: TwoWay, m: GraphModel) -> GraphModel {
        m.exchange(self.idx1, other.idx1).exchange(self.idx2, other.idx2)
    }

    /// The connections that an exchange of this one and `other` returns: the
    /// new forward passage of each side with the new backward passage of the
    /// other side.
    pub open spec fn exchanged(self, other: TwoWay) -> (TwoWay, TwoWay) {
        (
            TwoWay { idx1: other.idx1, idx2: self.idx2 },
            TwoWay { idx1: self.idx1, idx2: other.idx2 },
        )
    }

    /// Exchanges where this connection and `other` lead, and returns the two
    /// new connections.
    pub fn swap<G: Graph>(&self, other: &Self, graph: &mut G) -> (pair: EdgePair<TwoWay>)
        requires
            old(graph)@.wf(),
            old(graph)@.live(self.idx1),
            old(graph)@.live(self.idx2),
            old(graph)@.live(other.idx1),
            old(graph)@.live(other.idx2),
            self.idx1 != other.idx1,
            self.idx2 != other.idx2,
        ensures
            final(graph)@.wf(),
            final(graph)@ == self.exchanged_graph(*other, old(graph)@),
            (pair.0, pair.1) == self.exchanged(*other),
    {
        proof {
                graph@.lemma_exchange(self.idx1, other.idx1);
        }
        let (e1, e2) = swap_edges(self.idx1, other.idx1, graph);
        let (e3, e4) = swap_edges(self.idx2, other.idx2, graph);
        EdgePair(Self::new(e1, e4), Self::new(e2, e3))
    }
}

/// Exchanging two two-way connections that are apart keeps the graph well
/// formed and only rewires it.
pub proof fn lemma_two_way_exchange(m: GraphModel, x: TwoWay, y: TwoWay)
    requires
        m.wf(),
        m.live(x.idx1),
        m.live(x.idx2),
        m.live(y.idx1),
        m.live(y.idx2),
        x.idx1 != y.idx1,
        x.idx2 != y.idx2,
    ensures
        x.exchanged_graph(y, m).wf(),
        m.rewired_to(x.exchanged_graph(y, m)),
        forall|e: EdgeRef| #[trigger] x.exchanged_graph(y, m).live(e) <==> m.live(e),
        forall|e: EdgeRef|
            e != x.idx1 && e != y.idx1 && e != x.idx2 && e != y.idx2 ==> #[trigger] x.exchanged_graph(
                y,
                m,
            ).endpoints(e) == m.endpoints(e),
{
    let m1 = m.exchange(x.idx1, y.idx1);
    m.lemma_exchange(x.idx1, y.idx1);
    m1.lemma_exchange(x.idx2, y.idx2);
    let m2 = m1.exchange(x.idx2, y.idx2);
    lemma_rewired(m, m1, m2);
    assert forall|e: EdgeRef| #[trigger] m2.live(e) <==> m.live(e) by {
        assert(m1.live(e) <==> m.live(e));
        assert(m2.live(e) <==> m1.live(e));
    }
    assert forall|e: EdgeRef|
        e != x.idx1 && e != y.idx1 && e != x.idx2 && e != y.idx2 implies #[trigger] m2.endpoints(e)
        == m.endpoints(e) by {
        assert(m1.endpoints(e) == m.endpoints(e));
        assert(m2.endpoints(e) == m1.endpoints(e));
    }
}

/// Exchanging the two connections that an exchange of two two-way
/// connections returned restores the graph, where the connections are apart.
pub proof fn two_way_exchange_is_self_inverse(m: GraphModel, x: TwoWay, y: TwoWay)
    requires
        m.wf(),
        m.live(x.idx1),
        m.live(x.idx2),
        m.live(y.idx1),
        m.live(y.idx2),
        x.idx1 != y.idx1,
        x.idx2 != y.idx2,
        x.apart(y),
    ensures
        x.exchanged(y).0.exchanged_graph(x.exchanged(y).1, x.exchanged_graph(y, m)) == m,
        x.exchanged(y).0.exchanged(x.exchanged(y).1) == (x, y),
{
    let n = x.exchanged(y);
    let back = n.0.exchanged_graph(n.1, x.exchanged_graph(y, m));
    assert(m.occupied(x.idx1.index as int));
    assert(m.occupied(x.idx2.index as int));
    assert(m.occupied(y.idx1.index as int));
    assert(m.occupied(y.idx2.index as int));
    assert(back.edges =~= m.edges);
}

/// Two matched two-way connections that are apart stay matched pairs when
/// they exchange where they lead: each returned connection joins its two
/// areas in both directions.
pub proof fn two_way_exchange_keeps_matched(m: GraphModel, x: TwoWay, y: TwoWay)
    requires
        m.wf(),
        x.matched(m),
        y.matched(m),
        x.idx1 != y.idx1,
        x.idx2 != y.idx2,
        x.apart(y),
    ensures
        x.exchanged(y).0.matched(x.exchanged_graph(y, m)),
        x.exchanged(y).1.matched(x.exchanged_graph(y, m)),
{
    assert(m.occupied(x.idx1.index as int));
    assert(m.occupied(x.idx2.index as int));
    assert(m.occupied(y.idx1.index as int));
    assert(m.occupied(y.idx2.index as int));
}

/// `e` is the passage of a member.
pub open spec fn one_ways_hold(members: Seq<OneWay>, e: EdgeRef) -> bool {
    members.contains(OneWay { idx: e })
}

/// `e` is the forward or the backward passage of a member.
pub open spec fn two_ways_hold(members: Seq<TwoWay>, e: EdgeRef) -> bool {
    exists|x: TwoWay| #[trigger] members.contains(x) && (x.idx1 == e || x.idx2 == e)
}

/// Every member refers to a passage of the graph.
pub open spec fn one_ways_valid(m: GraphModel, members: Seq<OneWay>) -> bool {
    forall|x: OneWay| #[trigger] members.contains(x) ==> m.live(x.idx)
}

/// Every member refers to two passages of the graph, no two members share a
/// forward passage, and no two share a backward passage.
pub open spec fn two_ways_valid(m: GraphModel, members: Seq<TwoWay>) -> bool {
    &&& forall|x: TwoWay| #[trigger] members.contains(x) ==> m.live(x.idx1) && m.live(x.idx2)
    &&& forall|x: TwoWay, y: TwoWay|
        #[trigger] members.contains(x) && #[trigger] members.contains(y) && x != y ==> x.idx1
            != y.idx1 && x.idx2 != y.idx2
}

/// No forward passage of a member is a backward passage of a member.
pub open spec fn two_ways_apart(members: Seq<TwoWay>) -> bool {
    forall|x: TwoWay, y: TwoWay|
        #[trigger] members.contains(x) && #[trigger] members.contains(y) ==> x.idx1 != y.idx2
}

/// What a world holds.
pub struct WorldModel {
    /// What its graph holds.
    pub graph: GraphModel,
    /// The one-way connections that may be rearranged, in pool order.
    pub one_ways: Seq<OneWay>,
    /// The two-way connections that may be rearranged, in pool order.
    pub two_ways: Seq<TwoWay>,
}

/// A graph and the connections in it that may be rearranged. Passages in
/// neither pool stay as they are.
pub struct GameWorld {
    pub graph: GameGraph,
    pub swappable_one_ways: LinkedHashSet<OneWay>,
    pub swappable_two_ways: LinkedHashSet<TwoWay>,
}

impl GameWorld {
    /// What the world holds.
    pub open spec fn view(self) -> WorldModel {
        WorldModel { graph: self.graph@, one_ways: self.one_ways(), two_ways: self.two_ways() }
    }

    /// The one-way connections that may be rearranged, in pool order.
    pub open spec fn one_ways(self) -> Seq<OneWay> {
        one_way_members(self.swappable_one_ways)
    }

    /// The two-way connections that may be rearranged, in pool order.
    pub open spec fn two_ways(self) -> Seq<TwoWay> {
        two_way_members(self.swappable_two_ways)
    }

    /// Passage `e` belongs to a connection that may be rearranged.
    pub open spec fn swappable(self, e: EdgeRef) -> bool {
        one_ways_hold(self.one_ways(), e) || two_ways_hold(self.two_ways(), e)
    }

    /// Both pools refer to passages of the graph.
    pub open spec fn wf(self) -> bool {
        &&& one_ways_valid(self.graph@, self.one_ways())
        &&& two_ways_valid(self.graph@, self.two_ways())
    }

    /// Tests whether both pools refer to passages of the graph: every
    /// connection to passages that exist, and no two two-way connections to
    /// the same forward or the same backward passage.
    pub fn pools_fit(&self) -> (fit: bool)
        ensures
            fit == self.wf(),
    {
        let ones = pool::one_ways(&self.swappable_one_ways);
        let mut i: usize = 0;
        while i < ones.len()
            invariant
                i <= ones@.len(),
                ones@ == self.one_ways(),
                forall|k: int| 0 <= k < i ==> self.graph@.live((#[trigger] ones@[k]).idx),
            decreases ones@.len() - i,
        {
            if self.graph.edge_endpoints(ones[i].idx).is_none() {
                proof {
                    assert(ones@.contains(ones@[i as int]));
                }
                return false;
            }
            i += 1;
        }
        let twos = pool::two_ways(&self.swappable_two_ways);
        let mut a: usize = 0;
        while a < twos.len()
            invariant
                a <= twos@.len(),
                twos@ == self.two_ways(),
                twos@.no_duplicates(),
                one_ways_valid(self.graph@, self.one_ways()),
                forall|k: int|
                    0 <= k < a ==> self.graph@.live((#[trigger] twos@[k]).idx1)
                        && self.graph@.live(twos@[k].idx2),
                forall|k: int, l: int|
                    0 <= k < a && k < l < twos@.len() ==> (#[trigger] twos@[k]).idx1
                        != (#[trigger] twos@[l]).idx1 && twos@[k].idx2 != twos@[l].idx2,
            decreases twos@.len() - a,
        {
            let x = twos[a];
            if self.graph.edge_endpoints(x.idx1).is_none() || self.graph.edge_endpoints(
                x.idx2,
            ).is_none() {
                proof {
                    assert(twos@.contains(twos@[a as int]));
                }
                return false;
            }
            let mut b: usize = a + 1;
            while b < twos.len()
                invariant
                    a < b <= twos@.len(),
                    x == twos@[a as int],
                    twos@ == self.two_ways(),
                    twos@.no_duplicates(),
                    forall|l: int|
                        a < l < b ==> x.idx1 != (#[trigger] twos@[l]).idx1 && x.idx2
                            != twos@[l].idx2,
                decreases twos@.len() - b,
            {
                let y = twos[b];
                if x.idx1 == y.idx1 || x.idx2 == y.idx2 {
                    proof {
                        assert(twos@.contains(twos@[a as int]));
                        assert(twos@.contains(twos@[b as int]));
                        assert(twos@[a as int] != twos@[b as int]);
                    }
                    return false;
                }
                b += 1;
            }
            a += 1;
        }
        proof {
            assert forall|x: TwoWay, y: TwoWay|
                #[trigger] twos@.contains(x) && #[trigger] twos@.contains(y) && x != y implies x.idx1
                != y.idx1 && x.idx2 != y.idx2 by {
                let k = choose|k: int| 0 <= k < twos@.len() && twos@[k] == x;
                let l = choose|l: int| 0 <= l < twos@.len() && twos@[l] == y;
                if k < l {
                    assert(twos@[k].idx1 != twos@[l].idx1);
                } else {
                    assert(twos@[l].idx1 != twos@[k].idx1);
                }
            }
        }
        true
    }
}

/// Draws two members from different places, where there are at least two.
pub fn pick_random_edges<T: Copy>(members: &Vec<T>, rng: &mut StdRng) -> (pair: Option<EdgePair<T>>)
    ensures
        pair is Some <==> members@.len() >= 2,
        pair matches Some(p) ==> exists|i: int, j: int|
            0 <= i < members@.len() && 0 <= j < members@.len() && i != j && #[trigger] members@[i]
                == p.0 && #[trigger] members@[j] == p.1,
{
    if members.len() >= 2 {
        let edge_vec = random::choose_multiple(members, rng, 2);
        proof {
            let places = choose|places: Seq<int>|
                {
                    &&& #[trigger] places.len() == edge_vec@.len()
                    &&& places.no_duplicates()
                    &&& forall|k: int|
                        0 <= k < places.len() ==> 0 <= #[trigger] places[k] < members@.len()
                            && edge_vec@[k] == members@[places[k]]
                };
            assert(places[0] != places[1]);
            assert(members@[places[0]] == edge_vec@[0]);
            assert(members@[places[1]] == edge_vec@[1]);
        }
        Some(EdgePair(edge_vec[0], edge_vec[1]))
    } else {
        None
    }
}

/// Two values drawn from different places of a sequence without repeats are
/// two different members.
pub proof fn lemma_picked<T>(members: Seq<T>, a: T, b: T)
    requires
        members.no_duplicates(),
        exists|i: int, j: int|
            0 <= i < members.len() && 0 <= j < members.len() && i != j && #[trigger] members[i] == a
                && #[trigger] members[j] == b,
    ensures
        members.contains(a),
        members.contains(b),
        a != b,
{
    let (i, j) = choose|i: int, j: int|
        0 <= i < members.len() && 0 <= j < members.len() && i != j && #[trigger] members[i] == a
            && #[trigger] members[j] == b;
    assert(members[i] == a && members[j] == b);
}

/// The pool after an exchange of `edge1` and `edge2` was kept: both leave
/// the pool and the two returned connections enter it at the end. For
/// one-way connections the returned ones are `edge2` and `edge1` themselves.
pub open spec fn one_ways_after(members: Seq<OneWay>, edge1: OneWay, edge2: OneWay) -> Seq<OneWay> {
    members.remove_value(edge1).remove_value(edge2).push(edge2).push(edge1)
}

/// The pool after an exchange of `edge1` and `edge2` was kept: both leave
/// the pool and the two returned connections enter it at the end.
pub open spec fn two_ways_after(members: Seq<TwoWay>, edge1: TwoWay, edge2: TwoWay) -> Seq<TwoWay> {
    members.remove_value(edge1).remove_value(edge2).push(edge1.exchanged(edge2).0).push(
        edge1.exchanged(edge2).1,
    )
}

/// What an attempt on the one-way members `edge1` and `edge2` makes of graph
/// `m0` and pool `s0`: the exchanged graph and pool where that graph can be
/// completed, and `m0` and `s0` themselves where it cannot.
pub open spec fn one_way_step(
    m0: GraphModel,
    s0: Seq<OneWay>,
    m1: GraphModel,
    s1: Seq<OneWay>,
    edge1: OneWay,
    edge2: OneWay,
) -> bool {
    &&& s0.contains(edge1)
    &&& s0.contains(edge2)
    &&& edge1 != edge2
    &&& if edge1.exchanged_graph(edge2, m0).is_completable() {
        m1 == edge1.exchanged_graph(edge2, m0) && s1 == one_ways_after(s0, edge1, edge2)
    } else {
        m1 == m0 && s1 == s0
    }
}

/// What an attempt on the two-way members `edge1` and `edge2` makes of graph
/// `m0` and pool `s0`: the exchanged graph and pool where that graph can be
/// completed; where it cannot, the graph after a second exchange, of the
/// returned connections, and `s0` itself.
pub open spec fn two_way_step(
    m0: GraphModel,
    s0: Seq<TwoWay>,
    m1: GraphModel,
    s1: Seq<TwoWay>,
    edge1: TwoWay,
    edge2: TwoWay,
) -> bool {
    &&& s0.contains(edge1)
    &&& s0.contains(edge2)
    &&& edge1 != edge2
    &&& if edge1.exchanged_graph(edge2, m0).is_completable() {
        m1 == edge1.exchanged_graph(edge2, m0) && s1 == two_ways_after(s0, edge1, edge2)
    } else {
        m1 == edge1.exchanged(edge2).0.exchanged_graph(
            edge1.exchanged(edge2).1,
            edge1.exchanged_graph(edge2, m0),
        ) && s1 == s0
    }
}

/// One attempt leads from `before` to `after`: nothing changes where the
/// drawn pool has fewer than two members; otherwise two members of the drawn
/// pool are attempted and the other pool stays as it is.
pub open spec fn attempt(before: WorldModel, after: WorldModel) -> bool {
    ||| after == before && (before.one_ways.len() < 2 || before.two_ways.len() < 2)
    ||| after.two_ways == before.two_ways && exists|edge1: OneWay, edge2: OneWay|
        one_way_step(before.graph, before.one_ways, after.graph, after.one_ways, edge1, edge2)
    ||| after.one_ways == before.one_ways && exists|edge1: TwoWay, edge2: TwoWay|
        two_way_step(before.graph, before.two_ways, after.graph, after.two_ways, edge1, edge2)
}

/// `n` attempts, one after the other, lead from `start` to `end`.
pub open spec fn attempts(n: nat, start: WorldModel, end: WorldModel) -> bool
    decreases n,
{
    if n == 0 {
        end == start
    } else {
        exists|mid: WorldModel| attempts((n - 1) as nat, start, mid) && #[trigger] attempt(mid, end)
    }
}

/// What an attempt on two one-way members leaves is decided by the graph,
/// the pool and the two members drawn: the same draw on the same graph and
/// pool leaves the same graph and pool.
pub proof fn one_way_attempt_is_decided_by_the_draw(
    m0: GraphModel,
    s0: Seq<OneWay>,
    edge1: OneWay,
    edge2: OneWay,
    m1: GraphModel,
    s1: Seq<OneWay>,
    m2: GraphModel,
    s2: Seq<OneWay>,
)
    requires
        one_way_step(m0, s0, m1, s1, edge1, edge2),
        one_way_step(m0, s0, m2, s2, edge1, edge2),
    ensures
        m1 == m2,
        s1 == s2,
{
}

/// What an attempt on two two-way members leaves is decided by the graph,
/// the pool and the two members drawn.
pub proof fn two_way_attempt_is_decided_by_the_draw(
    m0: GraphModel,
    s0: Seq<TwoWay>,
    edge1: TwoWay,
    edge2: TwoWay,
    m1: GraphModel,
    s1: Seq<TwoWay>,
    m2: GraphModel,
    s2: Seq<TwoWay>,
)
    requires
        two_way_step(m0, s0, m1, s1, edge1, edge2),
        two_way_step(m0, s0, m2, s2, edge1, edge2),
    ensures
        m1 == m2,
        s1 == s2,
{
}

/// An attempt after `n` attempts makes `n + 1` attempts.
pub proof fn lemma_one_more_attempt(n: nat, start: WorldModel, mid: WorldModel, end: WorldModel)
    requires
        attempts(n, start, mid),
        attempt(mid, end),
    ensures
        attempts(n + 1, start, end),
{
    assert(attempts(((n + 1) - 1) as nat, start, mid) && attempt(mid, end));
}

/// Keeping an exchange of two one-way members leaves a pool of the same
/// members, moved to the end, that is valid for the exchanged graph.
pub proof fn lemma_one_ways_after(m: GraphModel, members: Seq<OneWay>, edge1: OneWay, edge2: OneWay)
    requires
        m.wf(),
        one_ways_valid(m, members),
        members.no_duplicates(),
        members.contains(edge1),
        members.contains(edge2),
        edge1 != edge2,
    ensures
        one_ways_after(members, edge1, edge2).no_duplicates(),
        one_ways_after(members, edge1, edge2).len() == members.len(),
        forall|x: OneWay| #[trigger]
            one_ways_after(members, edge1, edge2).contains(x) <==> members.contains(x),
        one_ways_valid(edge1.exchanged_graph(edge2, m), one_ways_after(members, edge1, edge2)),
        members.remove_value(edge1).contains(edge2),
        members.remove_value(edge1).remove_value(edge2).remove_value(edge2).push(
            edge2,
        ).remove_value(edge1).push(edge1) == one_ways_after(members, edge1, edge2),
{
    let s1 = members.remove_value(edge1);
    lemma_remove_value(members, edge1);
    let s2 = s1.remove_value(edge2);
    lemma_remove_value(s1, edge2);
    lemma_remove_value(s2, edge2);
    let s3 = s2.push(edge2);
    lemma_push_new(s2, edge2);
    lemma_remove_value(s3, edge1);
    let s4 = s3.push(edge1);
    lemma_push_new(s3, edge1);
    m.lemma_exchange(edge1.idx, edge2.idx);
    assert forall|x: OneWay| #[trigger] s4.contains(x) <==> members.contains(x) by {
        assert(s3.contains(x) <==> (s2.contains(x) || x == edge2));
        assert(s2.contains(x) <==> (s1.contains(x) && x != edge2));
        assert(s1.contains(x) <==> (members.contains(x) && x != edge1));
    }
}

/// Keeping an exchange of two two-way members leaves a pool of the same
/// size that is valid for the exchanged graph, and whose forward and
/// backward passages are those of the pool before.
pub proof fn lemma_two_ways_after(m: GraphModel, members: Seq<TwoWay>, edge1: TwoWay, edge2: TwoWay)
    requires
        m.wf(),
        two_ways_valid(m, members),
        members.no_duplicates(),
        members.contains(edge1),
        members.contains(edge2),
        edge1 != edge2,
    ensures
        two_ways_after(members, edge1, edge2).no_duplicates(),
        two_ways_after(members, edge1, edge2).len() == members.len(),
        two_ways_valid(edge1.exchanged_graph(edge2, m), two_ways_after(members, edge1, edge2)),
        two_ways_apart(members) ==> two_ways_apart(two_ways_after(members, edge1, edge2)),
        forall|e: EdgeRef| #[trigger]
            two_ways_hold(two_ways_after(members, edge1, edge2), e) <==> two_ways_hold(members, e),
        members.remove_value(edge1).contains(edge2),
        members.remove_value(edge1).remove_value(edge2).remove_value(
            edge1.exchanged(edge2).0,
        ).push(edge1.exchanged(edge2).0).remove_value(edge1.exchanged(edge2).1).push(
            edge1.exchanged(edge2).1,
        ) == two_ways_after(members, edge1, edge2),
{
    let n1 = edge1.exchanged(edge2).0;
    let n2 = edge1.exchanged(edge2).1;
    let s1 = members.remove_value(edge1);
    lemma_remove_value(members, edge1);
    let s2 = s1.remove_value(edge2);
    lemma_remove_value(s1, edge2);
    assert forall|x: TwoWay| #[trigger] s2.contains(x) <==> (members.contains(x) && x != edge1 && x
        != edge2) by {
        assert(s2.contains(x) <==> (s1.contains(x) && x != edge2));
        assert(s1.contains(x) <==> (members.contains(x) && x != edge1));
    }
    if s2.contains(n1) {
        assert(members.contains(n1));
        assert(n1 != edge2);
    }
    lemma_remove_value(s2, n1);
    let s3 = s2.push(n1);
    lemma_push_new(s2, n1);
    if s3.contains(n2) {
        assert(s2.contains(n2) || n2 == n1);
        assert(members.contains(n2));
        assert(n2 != edge1);
    }
    lemma_remove_value(s3, n2);
    let s4 = s3.push(n2);
    lemma_push_new(s3, n2);
    lemma_two_way_exchange(m, edge1, edge2);
    let after = edge1.exchanged_graph(edge2, m);
    assert forall|x: TwoWay| #[trigger] s4.contains(x) <==> (s2.contains(x) || x == n1 || x
        == n2) by {
        assert(s4.contains(x) <==> (s3.contains(x) || x == n2));
        assert(s3.contains(x) <==> (s2.contains(x) || x == n1));
    }
    assert forall|x: TwoWay| #[trigger] s4.contains(x) implies after.live(x.idx1) && after.live(
        x.idx2,
    ) by {
        if s2.contains(x) {
            assert(members.contains(x));
        }
        assert(after.live(x.idx1) <==> m.live(x.idx1));
        assert(after.live(x.idx2) <==> m.live(x.idx2));
    }
    assert forall|x: TwoWay, y: TwoWay|
        #[trigger] s4.contains(x) && #[trigger] s4.contains(y) && x != y implies x.idx1 != y.idx1
        && x.idx2 != y.idx2 by {
        if s2.contains(x) {
            assert(members.contains(x));
        }
        if s2.contains(y) {
            assert(members.contains(y));
        }
    }
    if two_ways_apart(members) {
        assert forall|x: TwoWay, y: TwoWay| #[trigger]
            s4.contains(x) && #[trigger] s4.contains(y) implies x.idx1 != y.idx2 by {
            if s2.contains(x) {
                assert(members.contains(x));
            }
            if s2.contains(y) {
                assert(members.contains(y));
            }
        }
    }
    assert(s4.contains(n1));
    assert(s4.contains(n2));
    assert forall|e: EdgeRef| #[trigger] two_ways_hold(s4, e) <==> two_ways_hold(members, e) by {
        if two_ways_hold(s4, e) {
            let z = choose|z: TwoWay| #[trigger] s4.contains(z) && (z.idx1 == e || z.idx2 == e);
            if s2.contains(z) {
                assert(members.contains(z));
            } else if z == n1 {
                assert(members.contains(edge2) && edge2.idx1 == n1.idx1);
                assert(members.contains(edge1) && edge1.idx2 == n1.idx2);
            } else {
                assert(z == n2);
                assert(members.contains(edge1) && edge1.idx1 == n2.idx1);
                assert(members.contains(edge2) && edge2.idx2 == n2.idx2);
            }
        }
        if two_ways_hold(members, e) {
            let z = choose|z: TwoWay|
                #[trigger] members.contains(z) && (z.idx1 == e || z.idx2 == e);
            if z == edge1 {
                assert(n2.idx1 == edge1.idx1 && n1.idx2 == edge1.idx2);
            } else if z == edge2 {
                assert(n1.idx1 == edge2.idx1 && n2.idx2 == edge2.idx2);
            } else {
                assert(s2.contains(z));
                assert(s4.contains(z));
            }
        }
    }
}

/// Exchanges two one-way members of the pool and keeps the exchange exactly
/// when the exchanged graph can be completed; otherwise the exchange is
/// undone and graph and pool are as before. Says whether it was kept.
pub fn exchange_one_ways<G: Graph>(
    graph: &mut G,
    swap_edges: &mut LinkedHashSet<OneWay>,
    edge1: OneWay,
    edge2: OneWay,
) -> (kept: bool)
    requires
        old(graph)@.wf(),
        one_ways_valid(old(graph)@, one_way_members(*old(swap_edges))),
        one_way_members(*old(swap_edges)).no_duplicates(),
        one_way_members(*old(swap_edges)).contains(edge1),
        one_way_members(*old(swap_edges)).contains(edge2),
        edge1 != edge2,
    ensures
        final(graph)@.wf(),
        kept == edge1.exchanged_graph(edge2, old(graph)@).is_completable(),
        final(graph)@ == if kept {
            edge1.exchanged_graph(edge2, old(graph)@)
        } else {
            old(graph)@
        },
        one_way_members(*final(swap_edges)) == if kept {
            one_ways_after(one_way_members(*old(swap_edges)), edge1, edge2)
        } else {
            one_way_members(*old(swap_edges))
        },
        one_ways_valid(final(graph)@, one_way_members(*final(swap_edges))),
        one_way_members(*final(swap_edges)).no_duplicates(),
        one_way_members(*final(swap_edges)).len() == one_way_members(*old(swap_edges)).len(),
        forall|x: OneWay| #[trigger]
            one_way_members(*final(swap_edges)).contains(x) <==> one_way_members(
                *old(swap_edges),
            ).contains(x),
        old(graph)@.rewired_to(final(graph)@),
        forall|e: EdgeRef|
            e != edge1.idx && e != edge2.idx ==> #[trigger] final(graph)@.endpoints(e) == old(graph)@.endpoints(e),
{
    proof {
        graph@.lemma_exchange(edge1.idx, edge2.idx);
        exchange_is_self_inverse(graph@, edge1.idx, edge2.idx);
        lemma_one_ways_after(graph@, one_way_members(*swap_edges), edge1, edge2);
        lemma_rewired(graph@, graph@, graph@);
    }
    let EdgePair(new_edge1, new_edge2) = edge1.swap(&edge2, graph);
    if graph.game_beatable().is_err() {
        new_edge1.swap(&new_edge2, graph);
        false
    } else {
        pool::remove_one_way(swap_edges, &edge1);
        pool::remove_one_way(swap_edges, &edge2);
        pool::insert_one_way(swap_edges, new_edge1);
        pool::insert_one_way(swap_edges, new_edge2);
        true
    }
}

/// Exchanges two two-way members of the pool and keeps the exchange exactly
/// when the exchanged graph can be completed; otherwise the returned
/// connections are exchanged again, which restores the graph where the two
/// members are apart, and the pool is as before. Says whether it was kept.
pub fn exchange_two_ways<G: Graph>(
    graph: &mut G,
    swap_edges: &mut LinkedHashSet<TwoWay>,
    edge1: TwoWay,
    edge2: TwoWay,
) -> (kept: bool)
    requires
        old(graph)@.wf(),
        two_ways_valid(old(graph)@, two_way_members(*old(swap_edges))),
        two_way_members(*old(swap_edges)).no_duplicates(),
        two_way_members(*old(swap_edges)).contains(edge1),
        two_way_members(*old(swap_edges)).contains(edge2),
        edge1 != edge2,
    ensures
        final(graph)@.wf(),
        kept == edge1.exchanged_graph(edge2, old(graph)@).is_completable(),
        final(graph)@ == if kept {
            edge1.exchanged_graph(edge2, old(graph)@)
        } else {
            edge1.exchanged(edge2).0.exchanged_graph(
                edge1.exchanged(edge2).1,
                edge1.exchanged_graph(edge2, old(graph)@),
            )
        },
        !kept && edge1.apart(edge2) ==> final(graph)@ == old(graph)@,
        two_way_members(*final(swap_edges)) == if kept {
            two_ways_after(two_way_members(*old(swap_edges)), edge1, edge2)
        } else {
            two_way_members(*old(swap_edges))
        },
        two_ways_valid(final(graph)@, two_way_members(*final(swap_edges))),
        two_way_members(*final(swap_edges)).no_duplicates(),
        two_way_members(*final(swap_edges)).len() == two_way_members(*old(swap_edges)).len(),
        two_ways_apart(two_way_members(*old(swap_edges))) ==> two_ways_apart(
            two_way_members(*final(swap_edges)),
        ),
        forall|e: EdgeRef| #[trigger]
            two_ways_hold(two_way_members(*final(swap_edges)), e) <==> two_ways_hold(
                two_way_members(*old(swap_edges)),
                e,
            ),
        old(graph)@.rewired_to(final(graph)@),
        forall|e: EdgeRef|
            e != edge1.idx1 && e != edge1.idx2 && e != edge2.idx1 && e != edge2.idx2
                ==> #[trigger] final(graph)@.endpoints(e) == old(graph)@.endpoints(e),
{
    let ghost m = graph@;
    let ghost members = two_way_members(*swap_edges);
    let ghost n = edge1.exchanged(edge2);
    proof {
        lemma_two_way_exchange(m, edge1, edge2);
        lemma_two_ways_after(m, members, edge1, edge2);
        let after = edge1.exchanged_graph(edge2, m);
        assert(after.live(n.0.idx1) && after.live(n.0.idx2) && after.live(n.1.idx1) && after.live(
            n.1.idx2,
        ));
        lemma_two_way_exchange(after, n.0, n.1);
        lemma_rewired(m, after, n.0.exchanged_graph(n.1, after));
        if edge1.apart(edge2) {
            two_way_exchange_is_self_inverse(m, edge1, edge2);
        }
        let back = n.0.exchanged_graph(n.1, after);
        assert forall|x: TwoWay| #[trigger] members.contains(x) implies back.live(x.idx1)
            && back.live(x.idx2) by {
            assert(after.live(x.idx1) <==> m.live(x.idx1));
            assert(after.live(x.idx2) <==> m.live(x.idx2));
        }
        assert forall|e: EdgeRef|
            e != edge1.idx1 && e != edge1.idx2 && e != edge2.idx1 && e != edge2.idx2
            implies #[trigger] back.endpoints(e) == m.endpoints(e) by {
            assert(after.endpoints(e) == m.endpoints(e));
        }
    }
    let EdgePair(new_edge1, new_edge2) = edge1.swap(&edge2, graph);
    if graph.game_beatable().is_err() {
        new_edge1.swap(&new_edge2, graph);
        false
    } else {
        pool::remove_two_way(swap_edges, &edge1);
        pool::remove_two_way(swap_edges, &edge2);
        pool::insert_two_way(swap_edges, new_edge1);
        pool::insert_two_way(swap_edges, new_edge2);
        true
    }
}

/// Draws two one-way members and exchanges them, keeping the exchange when
/// the world can still be completed. Does nothing on a pool of fewer than
/// two members.
pub fn try_swap_one_ways<G: Graph>(
    graph: &mut G,
    swap_edges: &mut LinkedHashSet<OneWay>,
    rng: &mut StdRng,
)
    requires
        old(graph)@.wf(),
        one_ways_valid(old(graph)@, one_way_members(*old(swap_edges))),
    ensures
        final(graph)@.wf(),
        one_ways_valid(final(graph)@, one_way_members(*final(swap_edges))),
        one_way_members(*final(swap_edges)).len() == one_way_members(*old(swap_edges)).len(),
        old(graph)@.rewired_to(final(graph)@),
        old(graph)@.is_completable() ==> final(graph)@.is_completable(),
        forall|x: OneWay| #[trigger]
            one_way_members(*final(swap_edges)).contains(x) <==> one_way_members(
                *old(swap_edges),
            ).contains(x),
        forall|e: EdgeRef|
            !one_ways_hold(one_way_members(*old(swap_edges)), e) ==> #[trigger] final(graph)@.endpoints(e) == old(graph)@.endpoints(e),
        one_way_members(*old(swap_edges)).len() < 2 ==> final(graph)@ == old(graph)@
            && one_way_members(*final(swap_edges)) == one_way_members(*old(swap_edges)),
        one_way_members(*old(swap_edges)).len() >= 2 ==> exists|edge1: OneWay, edge2: OneWay|
            one_way_step(
                old(graph)@,
                one_way_members(*old(swap_edges)),
                final(graph)@,
                one_way_members(*final(swap_edges)),
                edge1,
                edge2,
            ),
{
    let members = pool::one_ways(swap_edges);
    proof {
        lemma_rewired(graph@, graph@, graph@);
    }
    match pick_random_edges(&members, rng) {
        Some(EdgePair(edge1, edge2)) => {
            proof {
                lemma_picked(members@, edge1, edge2);
            }
            exchange_one_ways(graph, swap_edges, edge1, edge2);
            proof {
                assert(one_way_step(
                    old(graph)@,
                    members@,
                    graph@,
                    one_way_members(*swap_edges),
                    edge1,
                    edge2,
                ));
            }
        },
        None => {},
    }
}

/// Draws two two-way members and exchanges them, keeping the exchange when
/// the world can still be completed. Does nothing on a pool of fewer than
/// two members.
pub fn try_swap_two_ways<G: Graph>(
    graph: &mut G,
    swap_edges: &mut LinkedHashSet<TwoWay>,
    rng: &mut StdRng,
)
    requires
        old(graph)@.wf(),
        two_ways_valid(old(graph)@, two_way_members(*old(swap_edges))),
    ensures
        final(graph)@.wf(),
        two_ways_valid(final(graph)@, two_way_members(*final(swap_edges))),
        two_way_members(*final(swap_edges)).len() == two_way_members(*old(swap_edges)).len(),
        old(graph)@.rewired_to(final(graph)@),
        two_ways_apart(two_way_members(*old(swap_edges))) ==> two_ways_apart(
            two_way_members(*final(swap_edges)),
        ),
        old(graph)@.is_completable() && two_ways_apart(two_way_members(*old(swap_edges)))
            ==> final(graph)@.is_completable(),
        forall|e: EdgeRef| #[trigger]
            two_ways_hold(two_way_members(*final(swap_edges)), e) <==> two_ways_hold(
                two_way_members(*old(swap_edges)),
                e,
            ),
        forall|e: EdgeRef|
            !two_ways_hold(two_way_members(*old(swap_edges)), e) ==> #[trigger] final(graph)@.endpoints(e) == old(graph)@.endpoints(e),
        two_way_members(*old(swap_edges)).len() < 2 ==> final(graph)@ == old(graph)@
            && two_way_members(*final(swap_edges)) == two_way_members(*old(swap_edges)),
        two_way_members(*old(swap_edges)).len() >= 2 ==> exists|edge1: TwoWay, edge2: TwoWay|
            two_way_step(
                old(graph)@,
                two_way_members(*old(swap_edges)),
                final(graph)@,
                two_way_members(*final(swap_edges)),
                edge1,
                edge2,
            ),
{
    let members = pool::two_ways(swap_edges);
    proof {
        lemma_rewired(graph@, graph@, graph@);
    }
    match pick_random_edges(&members, rng) {
        Some(EdgePair(edge1, edge2)) => {
            proof {
                lemma_picked(members@, edge1, edge2);
                if two_ways_apart(members@) {
                    assert(edge1.apart(edge2));
                }
            }
            exchange_two_ways(graph, swap_edges, edge1, edge2);
            proof {
                assert(two_way_step(
                    old(graph)@,
                    members@,
                    graph@,
                    two_way_members(*swap_edges),
                    edge1,
                    edge2,
                ));
            }
        },
        None => {},
    }
}

/// Rewires a world at random.
///
/// Refuses a world that cannot be completed, with the areas of every root of
/// its condensation. Otherwise makes `iterations` attempts: each draws a
/// pool, draws two of its members, and exchanges where they lead if the
/// world can still be completed afterwards. The world that comes back has
/// the areas, the passage references and the pool sizes it started with,
/// every passage still enters the area it entered, passages in neither pool
/// are as they were, and the world can be completed where no forward passage
/// of the two-way pool is also a backward one.
pub fn build_game(game_world: GameWorld, rng: &mut StdRng, iterations: usize) -> (built: Result<
    GameWorld,
    Error,
>)
    requires
        game_world.wf(),
    ensures
        built is Ok <==> game_world.graph@.is_completable(),
        built matches Err(Error::GameUnbeatable(ids)) ==> ids@ == game_world.graph@.root_areas(),
        built matches Ok(world) ==> {
            &&& attempts(iterations as nat, game_world@, world@)
            &&& world.wf()
            &&& game_world.graph@.rewired_to(world.graph@)
            &&& world.graph@.edge_count() == game_world.graph@.edge_count()
            &&& world.one_ways().len() == game_world.one_ways().len()
            &&& world.two_ways().len() == game_world.two_ways().len()
            &&& two_ways_apart(game_world.two_ways()) ==> world.graph@.is_completable()
                && two_ways_apart(world.two_ways())
            &&& forall|e: EdgeRef| #[trigger] world.swappable(e) <==> game_world.swappable(e)
            &&& forall|e: EdgeRef|
                !game_world.swappable(e) ==> #[trigger] world.graph@.endpoints(e)
                    == game_world.graph@.endpoints(e)
        },
{
    let mut game_world = game_world;
    let ghost start = game_world;
    match game_world.graph.game_beatable() {
        Err(e) => {
            return Err(e);
        },
        Ok(_) => {},
    }
    proof {
        lemma_rewired(start.graph@, start.graph@, start.graph@);
    }
    let mut i: usize = 0;
    while i < iterations
        invariant
            i <= iterations,
            attempts(i as nat, start@, game_world@),
            game_world.wf(),
            game_world.graph@.wf(),
            start.graph@.rewired_to(game_world.graph@),
            game_world.one_ways().len() == start.one_ways().len(),
            game_world.two_ways().len() == start.two_ways().len(),
            two_ways_apart(start.two_ways()) ==> game_world.graph@.is_completable()
                && two_ways_apart(game_world.two_ways()),
            forall|e: EdgeRef| #[trigger] game_world.swappable(e) <==> start.swappable(e),
            forall|e: EdgeRef|
                !start.swappable(e) ==> #[trigger] game_world.graph@.endpoints(e)
                    == start.graph@.endpoints(e),
        decreases iterations - i,
    {
        let ghost before = game_world;
        if random::gen_bool(rng) {
            try_swap_one_ways(&mut game_world.graph, &mut game_world.swappable_one_ways, rng);
            proof {
                lemma_rewired(before.graph@, game_world.graph@, game_world.graph@);
                assert forall|e: EdgeRef| #[trigger]
                    game_world.swappable(e) <==> start.swappable(e) by {
                    assert(before.swappable(e) <==> start.swappable(e));
                    assert(game_world.one_ways().contains(OneWay { idx: e })
                        <==> before.one_ways().contains(OneWay { idx: e }));
                }
                assert forall|e: EdgeRef| !start.swappable(e) implies #[trigger]
                    game_world.graph@.endpoints(e) == start.graph@.endpoints(e) by {
                    assert(before.swappable(e) <==> start.swappable(e));
                    assert(!one_ways_hold(before.one_ways(), e));
                    assert(before.graph@.endpoints(e) == start.graph@.endpoints(e));
                }
                if before.one_ways().len() < 2 {
                    assert(game_world@ == before@);
                } else {
                    let (edge1, edge2) = choose|edge1: OneWay, edge2: OneWay|
                        one_way_step(
                            before.graph@,
                            before.one_ways(),
                            game_world.graph@,
                            game_world.one_ways(),
                            edge1,
                            edge2,
                        );
                    assert(one_way_step(
                        before@.graph,
                        before@.one_ways,
                        game_world@.graph,
                        game_world@.one_ways,
                        edge1,
                        edge2,
                    ));
                }
                assert(attempt(before@, game_world@));
            }
        } else {
            try_swap_two_ways(&mut game_world.graph, &mut game_world.swappable_two_ways, rng);
            proof {
                lemma_rewired(before.graph@, game_world.graph@, game_world.graph@);
                assert forall|e: EdgeRef| #[trigger]
                    game_world.swappable(e) <==> start.swappable(e) by {
                    assert(before.swappable(e) <==> start.swappable(e));
                    assert(two_ways_hold(game_world.two_ways(), e) <==> two_ways_hold(
                        before.two_ways(),
                        e,
                    ));
                }
                assert forall|e: EdgeRef| !start.swappable(e) implies #[trigger]
                    game_world.graph@.endpoints(e) == start.graph@.endpoints(e) by {
                    assert(before.swappable(e) <==> start.swappable(e));
                    assert(!two_ways_hold(before.two_ways(), e));
                    assert(before.graph@.endpoints(e) == start.graph@.endpoints(e));
                }
                if before.two_ways().len() < 2 {
                    assert(game_world@ == before@);
                } else {
                    let (edge1, edge2) = choose|edge1: TwoWay, edge2: TwoWay|
                        two_way_step(
                            before.graph@,
                            before.two_ways(),
                            game_world.graph@,
                            game_world.two_ways(),
                            edge1,
                            edge2,
                        );
                    assert(two_way_step(
                        before@.graph,
                        before@.two_ways,
                        game_world@.graph,
                        game_world@.two_ways,
                        edge1,
                        edge2,
                    ));
                }
                assert(attempt(before@, game_world@));
            }
        }
        proof {
            lemma_rewired(start.graph@, before.graph@, game_world.graph@);
            lemma_one_more_attempt(i as nat, start@, before@, game_world@);
        }
        i += 1;
    }
    proof {
        lemma_rewired(start.graph@, game_world.graph@, game_world.graph@);
    }
    Ok(game_world)
}

} // verus!
