//! Completability: a world can be completed when the condensation of its
//! graph has exactly one component that no passage enters from another
//! component.
use vstd::prelude::*;
use crate::error::Error;
use crate::model::GraphModel;
use crate::stable_graph::condensation_of;
use crate::NodeID;

verus! {

/// One of the first `upto` links enters component `c`.
pub open spec fn entered(links: Seq<(usize, usize)>, c: int, upto: int) -> bool {
    exists|k: int| 0 <= k < upto && k < links.len() && (#[trigger] links[k]).1 == c
}

/// Component `c` is a root: no link enters it.
pub open spec fn is_root(links: Seq<(usize, usize)>, c: int) -> bool {
    !entered(links, c, links.len() as int)
}

/// The number of roots among the first `n` components.
pub open spec fn root_count(links: Seq<(usize, usize)>, n: int) -> nat
    decreases n,
{
    if n <= 0 {
        0
    } else if is_root(links, n - 1) {
        root_count(links, n - 1) + 1
    } else {
        root_count(links, n - 1)
    }
}

/// The areas of the roots among the first `n` components, component by
/// component in index order, each component's areas in its own order.
pub open spec fn root_areas(
    components: Seq<Seq<NodeID>>,
    links: Seq<(usize, usize)>,
    n: int,
) -> Seq<NodeID>
    decreases n,
{
    if n <= 0 {
        Seq::empty()
    } else if is_root(links, n - 1) {
        root_areas(components, links, n - 1) + components[n - 1]
    } else {
        root_areas(components, links, n - 1)
    }
}

impl GraphModel {
    /// The condensation of the graph: the areas of each strongly connected
    /// component, and the links between components.
    pub open spec fn condensation(self) -> (Seq<Seq<NodeID>>, Seq<(usize, usize)>) {
        condensation_of(self.nodes.map_values(|id: NodeID| Some(id)), self.edges)
    }

    /// The condensation has exactly one root.
    pub open spec fn is_completable(self) -> bool {
        root_count(self.condensation().1, self.condensation().0.len() as int) == 1
    }

    /// The areas of every root of the condensation.
    pub open spec fn root_areas(self) -> Seq<NodeID> {
        root_areas(
            self.condensation().0,
            self.condensation().1,
            self.condensation().0.len() as int,
        )
    }
}

/// Looking at one more link adds the component that it enters.
proof fn lemma_entered_step(links: Seq<(usize, usize)>, c: int, j: int)
    requires
        0 <= j < links.len(),
    ensures
        entered(links, c, j + 1) <==> (entered(links, c, j) || links[j].1 == c),
{
    if entered(links, c, j + 1) {
        let k = choose|k: int| 0 <= k < j + 1 && k < links.len() && (#[trigger] links[k]).1 == c;
        if k < j {
            assert(entered(links, c, j));
        }
    }
    if entered(links, c, j) {
        let k = choose|k: int| 0 <= k < j && k < links.len() && (#[trigger] links[k]).1 == c;
        assert(0 <= k < j + 1 && links[k].1 == c);
    }
    if links[j].1 == c {
        assert(0 <= j < j + 1 && links[j].1 == c);
    }
}

/// For each of `n` components, whether a link enters it.
fn entered_flags(n: usize, links: &Vec<(usize, usize)>) -> (flags: Vec<bool>)
    ensures
        flags@.len() == n,
        forall|c: int| 0 <= c < n ==> flags@[c] == !is_root(links@, c),
{
    let mut flags: Vec<bool> = Vec::new();
    let mut c: usize = 0;
    while c < n
        invariant
            c <= n,
            flags@.len() == c,
            forall|i: int| 0 <= i < c ==> flags@[i] == entered(links@, i, 0),
        decreases n - c,
    {
        flags.push(false);
        c += 1;
    }
    let mut j: usize = 0;
    while j < links.len()
        invariant
            j <= links@.len(),
            flags@.len() == n,
            forall|i: int| 0 <= i < n ==> flags@[i] == entered(links@, i, j as int),
        decreases links@.len() - j,
    {
        let target: usize = links[j].1;
        proof {
            assert forall|i: int| 0 <= i < n implies (entered(links@, i, j + 1) <==> (entered(
                links@,
                i,
                j as int,
            ) || links@[j as int].1 == i)) by {
                lemma_entered_step(links@, i, j as int);
            }
        }
        if target < n {
            flags.set(target, true);
        }
        j += 1;
    }
    flags
}

/// Decides completability from a condensation.
///
/// Succeeds exactly when one component is a root. Otherwise the error
/// carries the areas of every root, component by component.
pub fn single_root(components: &Vec<Vec<NodeID>>, links: &Vec<(usize, usize)>) -> (verdict: Result<
    (),
    Error,
>)
    ensures
        verdict is Ok <==> root_count(links@, components@.len() as int) == 1,
        verdict matches Err(Error::GameUnbeatable(ids)) ==> ids@ == root_areas(
            components.deep_view(),
            links@,
            components@.len() as int,
        ),
{
    let n: usize = components.len();
    let flags = entered_flags(n, links);
    let mut count: usize = 0;
    let mut c: usize = 0;
    while c < n
        invariant
            c <= n,
            n == components@.len(),
            flags@.len() == n,
            forall|i: int| 0 <= i < n ==> flags@[i] == !is_root(links@, i),
            count == root_count(links@, c as int),
            count <= c,
        decreases n - c,
    {
        if !flags[c] {
            count += 1;
        }
        c += 1;
    }
    if count == 1 {
        return Ok(());
    }
    let mut ids: Vec<NodeID> = Vec::new();
    let mut c: usize = 0;
    while c < n
        invariant
            c <= n,
            n == components@.len(),
            flags@.len() == n,
            forall|i: int| 0 <= i < n ==> flags@[i] == !is_root(links@, i),
            ids@ == root_areas(components.deep_view(), links@, c as int),
        decreases n - c,
    {
        if !flags[c] {
            let component = &components[c];
            let ghost before = ids@;
            let mut k: usize = 0;
            while k < component.len()
                invariant
                    k <= component@.len(),
                    ids@ == before + component@.subrange(0, k as int),
                decreases component@.len() - k,
            {
                ids.push(component[k]);
                k += 1;
            }
            proof {
                assert(component@.subrange(0, k as int) == component@);
                assert(components.deep_view()[c as int] == component@);
            }
        }
        c += 1;
    }
    Err(Error::GameUnbeatable(ids))
}

} // verus!
