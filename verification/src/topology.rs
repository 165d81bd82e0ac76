//! The capability that every walk rests on.
//!
//! A graph usually offers two topologies, one of its vertices and one of its edges, so that the
//! same walks serve both.

use vstd::prelude::*;
use crate::index::Index;

verus! {

/// Whether `s` holds an item of identity `k`.
pub open spec fn occurs<I: View>(s: Seq<I>, k: I::V) -> bool {
    exists|i: int| 0 <= i < s.len() && (#[trigger] s[i])@ == k
}

/// Whether no identity occurs twice in `s`.
pub open spec fn distinct<I: View>(s: Seq<I>) -> bool {
    forall|i: int, j: int| 0 <= i < j < s.len() ==> (#[trigger] s[i])@ != (#[trigger] s[j])@
}

/// The connectivity of a collection of items: which there are, and which lie next to which.
pub trait Topology {
    /// The items of the collection: typically vertices, or edges.
    type Item: Index;

    /// What a topology needs of the graph that it reads.
    spec fn wf(&self) -> bool;

    /// All items, in the order in which `iter` yields them.
    spec fn items(&self) -> Seq<Self::Item>;

    /// The items next to `item`, in the order in which `adjacent_to` yields them.
    spec fn neighbors(&self, item: Self::Item) -> Seq<Self::Item>;

    /// An item has the same neighbours however it is written.
    proof fn lemma_neighbors_of_same(&self, a: Self::Item, b: Self::Item)
        requires
            self.wf(),
            a@ == b@,
        ensures
            forall|k: <Self::Item as View>::V|
                occurs(self.neighbors(a), k) <==> occurs(self.neighbors(b), k),
    ;

    /// All items of the collection.
    fn iter(&self) -> (all: Vec<Self::Item>)
        requires
            self.wf(),
        ensures
            all@ == self.items(),
    ;

    /// The items next to `item`, or `None` where the collection does not hold `item`.
    fn adjacent_to(&self, item: Self::Item) -> (adjacent: Option<Vec<Self::Item>>)
        requires
            self.wf(),
        ensures
            adjacent.is_some() == occurs(self.items(), item@),
            adjacent.is_some() ==> adjacent.unwrap()@ == self.neighbors(item),
    ;

    /// Whether the collection holds `item`.
    fn contains(&self, item: Self::Item) -> (r: bool)
        requires
            self.wf(),
        ensures
            r == occurs(self.items(), item@),
    ;
}

/// One step of a walk: `a` is an item of the topology, and `b` names one of its neighbours.
pub open spec fn leads<T: Topology>(t: &T, a: T::Item, b: <T::Item as View>::V) -> bool {
    occurs(t.items(), a@) && occurs(t.neighbors(a), b)
}

/// Whether at most `hops` steps lead from `from` to `to`.
pub open spec fn within<T: Topology>(
    t: &T,
    from: <T::Item as View>::V,
    to: <T::Item as View>::V,
    hops: nat,
) -> bool
    decreases hops,
{
    if hops == 0 {
        from == to
    } else {
        within(t, from, to, (hops - 1) as nat) || exists|via: T::Item|
            within(t, from, via@, (hops - 1) as nat) && #[trigger] leads(t, via, to)
    }
}

/// Whether some number of steps leads from `from` to `to`.
pub open spec fn reachable<T: Topology>(
    t: &T,
    from: <T::Item as View>::V,
    to: <T::Item as View>::V,
) -> bool {
    exists|hops: nat| within(t, from, to, hops)
}

/// Whether every step from an item of the topology ends at an item of the topology.
pub open spec fn closed<T: Topology>(t: &T) -> bool {
    forall|a: T::Item, k: <T::Item as View>::V| #[trigger] leads(t, a, k) ==> occurs(t.items(), k)
}

/// `adjacent_to` answers `None` for an item exactly where `contains` answers `false`:
/// whatever the two calls return for one item of one topology, the answers agree.
pub proof fn lemma_absent_iff_not_contained<T: Topology>(
    t: &T,
    item: T::Item,
    adjacent: Option<Vec<T::Item>>,
    held: bool,
)
    requires
        t.wf(),
        call_ensures(T::adjacent_to, (t, item), adjacent),
        call_ensures(T::contains, (t, item), held),
    ensures
        adjacent.is_none() <==> !held,
{
}

} // verus!
