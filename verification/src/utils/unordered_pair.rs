//! A pair whose two places are interchangeable.

use vstd::prelude::*;
use vstd::std_specs::cmp::PartialEqSpec;
use vstd::std_specs::cmp::PartialEqSpecImpl;
use vstd::std_specs::convert::FromSpecImpl;
use crate::index::Index;
use crate::seqs::fan;
use crate::topology::occurs;

verus! {

/// Two items in no particular order: the identity of an edge that leads both ways.
///
/// `UnorderedPair(x, y)` and `UnorderedPair(y, x)` are the same pair. The identity of a pair is
/// the set of the identities of its two items, which does not know which came first.
#[derive(Debug, Hash)]
pub struct UnorderedPair<I>(pub I, pub I);

impl<I: Copy> Clone for UnorderedPair<I> {
    fn clone(&self) -> (copy: Self)
        ensures
            copy == *self,
    {
        *self
    }
}

impl<I: Copy> Copy for UnorderedPair<I> {
}

impl<I: View> View for UnorderedPair<I> {
    type V = Set<I::V>;

    open spec fn view(&self) -> Set<I::V> {
        set![self.0@, self.1@]
    }
}

impl<I: Index + Copy> Index for UnorderedPair<I> {
    fn same(self, other: Self) -> (r: bool) {
        let r = (self.0.same(other.0) && self.1.same(other.1)) || (self.0.same(other.1)
            && self.1.same(other.0));
        proof {
            lemma_same_pair(self, other);
        }
        r
    }
}

impl<I: Index + Copy> PartialEq for UnorderedPair<I> {
    fn eq(&self, other: &Self) -> (r: bool) {
        self.same(*other)
    }
}

impl<I: Index + Copy> PartialEqSpecImpl for UnorderedPair<I> {
    open spec fn obeys_eq_spec() -> bool {
        true
    }

    open spec fn eq_spec(&self, other: &Self) -> bool {
        self@ == other@
    }
}

impl<I: Index + Copy> Eq for UnorderedPair<I> {
}

impl<I> From<(I, I)> for UnorderedPair<I> {
    fn from(tuple: (I, I)) -> (pair: UnorderedPair<I>) {
        UnorderedPair(tuple.0, tuple.1)
    }
}

impl<I> FromSpecImpl<(I, I)> for UnorderedPair<I> {
    open spec fn obeys_from_spec() -> bool {
        true
    }

    open spec fn from_spec(tuple: (I, I)) -> UnorderedPair<I> {
        UnorderedPair(tuple.0, tuple.1)
    }
}

impl<I> From<UnorderedPair<I>> for (I, I) {
    fn from(pair: UnorderedPair<I>) -> (tuple: (I, I)) {
        (pair.0, pair.1)
    }
}

impl<I> FromSpecImpl<UnorderedPair<I>> for (I, I) {
    open spec fn obeys_from_spec() -> bool {
        true
    }

    open spec fn from_spec(pair: UnorderedPair<I>) -> (I, I) {
        (pair.0, pair.1)
    }
}

/// Two pairs are the same exactly when their places agree straight or crosswise.
pub proof fn lemma_same_pair<I: View>(p: UnorderedPair<I>, q: UnorderedPair<I>)
    ensures
        (p@ == q@) <==> ((p.0@ == q.0@ && p.1@ == q.1@) || (p.0@ == q.1@ && p.1@ == q.0@)),
{
    if p@ == q@ {
        assert(p@.contains(p.0@));
        assert(p@.contains(p.1@));
        assert(q@.contains(q.0@));
        assert(q@.contains(q.1@));
    }
    if (p.0@ == q.0@ && p.1@ == q.1@) || (p.0@ == q.1@ && p.1@ == q.0@) {
        assert(p@ =~= q@);
    }
}

/// Swapping the two places gives the same pair: the identities are equal, and so `==` holds.
pub proof fn lemma_pair_symmetric<I: Index + Copy>(x: I, y: I)
    ensures
        UnorderedPair(x, y)@ == UnorderedPair(y, x)@,
        PartialEqSpec::eq_spec(&UnorderedPair(x, y), &UnorderedPair(y, x)),
{
    lemma_same_pair(UnorderedPair(x, y), UnorderedPair(y, x));
}

/// A pair differs from one that shares its first place and holds a third item in the other.
pub proof fn lemma_pair_distinct<I: Index + Copy>(x: I, y: I, z: I)
    requires
        z@ != x@,
        z@ != y@,
    ensures
        UnorderedPair(x, y)@ != UnorderedPair(x, z)@,
        !PartialEqSpec::eq_spec(&UnorderedPair(x, y), &UnorderedPair(x, z)),
{
    lemma_same_pair(UnorderedPair(x, y), UnorderedPair(x, z));
}

/// The same edges, written as unordered pairs.
pub open spec fn pairs<I>(arcs: Seq<(I, I)>) -> Seq<UnorderedPair<I>> {
    Seq::new(arcs.len(), |i: int| UnorderedPair(arcs[i].0, arcs[i].1))
}

/// A pair occurs among edges written as pairs exactly when the edge occurs one way or the other.
pub proof fn lemma_pairs<I: View>(arcs: Seq<(I, I)>, a: I, b: I)
    ensures
        occurs(pairs(arcs), UnorderedPair(a, b)@) <==> occurs(arcs, (a@, b@)) || occurs(
            arcs,
            (b@, a@),
        ),
{
    let wrapped = pairs(arcs);
    if occurs(wrapped, UnorderedPair(a, b)@) {
        let i = choose|i: int|
            0 <= i < wrapped.len() && (#[trigger] wrapped[i])@ == UnorderedPair(a, b)@;
        lemma_same_pair(wrapped[i], UnorderedPair(a, b));
        assert(arcs[i]@ == (a@, b@) || arcs[i]@ == (b@, a@));
    }
    if occurs(arcs, (a@, b@)) {
        let i = choose|i: int| 0 <= i < arcs.len() && (#[trigger] arcs[i])@ == (a@, b@);
        lemma_same_pair(wrapped[i], UnorderedPair(a, b));
    }
    if occurs(arcs, (b@, a@)) {
        let i = choose|i: int| 0 <= i < arcs.len() && (#[trigger] arcs[i])@ == (b@, a@);
        lemma_same_pair(wrapped[i], UnorderedPair(a, b));
    }
}

/// Edges written as pairs do not depend on how their source is written.
pub proof fn lemma_fan_same<I: View>(a: I, b: I, targets: Seq<I>, k: Set<I::V>)
    requires
        a@ == b@,
    ensures
        occurs(pairs(fan(a, targets)), k) <==> occurs(pairs(fan(b, targets)), k),
{
    let left = pairs(fan(a, targets));
    let right = pairs(fan(b, targets));
    assert forall|i: int| 0 <= i < left.len() implies (#[trigger] left[i])@ == right[i]@ by {
        lemma_same_pair(left[i], right[i]);
    }
    if occurs(left, k) {
        let i = choose|i: int| 0 <= i < left.len() && (#[trigger] left[i])@ == k;
        assert(right[i]@ == k);
    }
    if occurs(right, k) {
        let i = choose|i: int| 0 <= i < right.len() && (#[trigger] right[i])@ == k;
        assert(left[i]@ == k);
    }
}

/// Writes each edge as an unordered pair.
pub fn unordered<I: Copy>(arcs: &Vec<(I, I)>) -> (wrapped: Vec<UnorderedPair<I>>)
    ensures
        wrapped@ == pairs(arcs@),
{
    let mut wrapped: Vec<UnorderedPair<I>> = Vec::new();
    let mut i: usize = 0;
    while i < arcs.len()
        invariant
            i <= arcs.len(),
            wrapped@ == pairs(arcs@.take(i as int)),
        decreases arcs.len() - i,
    {
        let arc = arcs[i];
        wrapped.push(UnorderedPair(arc.0, arc.1));
        proof {
            assert(wrapped@ =~= pairs(arcs@.take(i + 1)));
        }
        i += 1;
    }
    proof {
        assert(arcs@.take(arcs@.len() as int) =~= arcs@);
    }
    wrapped
}

} // verus!
