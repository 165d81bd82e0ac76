//! Identifiers of graph items.

use vstd::prelude::*;
use crate::topology::{distinct, occurs};

verus! {

/// What a graph item must offer: it can be told apart from another.
///
/// The view of an item is its identity: two items are the same member of a graph exactly when
/// their views are equal.
pub trait Index: View + Sized {
    /// Whether `self` and `other` are the same item.
    fn same(self, other: Self) -> (r: bool)
        ensures
            r == (self@ == other@),
    ;
}

impl Index for usize {
    fn same(self, other: Self) -> (r: bool) {
        self == other
    }
}

impl Index for u8 {
    fn same(self, other: Self) -> (r: bool) {
        self == other
    }
}

impl Index for u16 {
    fn same(self, other: Self) -> (r: bool) {
        self == other
    }
}

impl Index for u32 {
    fn same(self, other: Self) -> (r: bool) {
        self == other
    }
}

impl Index for u64 {
    fn same(self, other: Self) -> (r: bool) {
        self == other
    }
}

impl Index for u128 {
    fn same(self, other: Self) -> (r: bool) {
        self == other
    }
}

impl Index for isize {
    fn same(self, other: Self) -> (r: bool) {
        self == other
    }
}

impl Index for i8 {
    fn same(self, other: Self) -> (r: bool) {
        self == other
    }
}

impl Index for i16 {
    fn same(self, other: Self) -> (r: bool) {
        self == other
    }
}

impl Index for i32 {
    fn same(self, other: Self) -> (r: bool) {
        self == other
    }
}

impl Index for i64 {
    fn same(self, other: Self) -> (r: bool) {
        self == other
    }
}

impl Index for i128 {
    fn same(self, other: Self) -> (r: bool) {
        self == other
    }
}

/// An ordered pair is the same as another when both places agree.
impl<I: Index + Copy> Index for (I, I) {
    fn same(self, other: Self) -> (r: bool) {
        self.0.same(other.0) && self.1.same(other.1)
    }
}

/// A series of identifiers, no two of them the same.
///
/// A value of the type is the head of its series: the identifier that comes next.
/// `generate` hands the head out and moves on to an identifier that the series has not issued.
pub trait Unique: Index {
    /// The identities that the series has issued before this head.
    spec fn issued(&self) -> Set<Self::V>;

    /// How many identifiers the series can still issue.
    spec fn left(&self) -> nat;

    /// How many identifiers a series can issue in all.
    spec fn capacity() -> nat;

    /// The head that the series has once this one is issued.
    spec fn successor(&self) -> Self;

    /// The head of a series that has issued nothing.
    spec fn origin() -> Self;

    /// The head of a series that has issued nothing.
    fn first() -> (head: Self)
        ensures
            head == Self::origin(),
            head.issued() == Set::<Self::V>::empty(),
            head.left() == Self::capacity(),
    ;

    /// Whether the series can still issue `wanted` identifiers.
    fn has_room(&self, wanted: usize) -> (r: bool)
        ensures
            r == (wanted <= self.left()),
    ;

    /// Issues the head and moves on to its successor. The identifier is new to the series, and
    /// counts as issued from now on.
    fn generate(&mut self) -> (id: Self)
        requires
            old(self).left() > 0,
        ensures
            id == *old(self),
            *final(self) == old(self).successor(),
            !old(self).issued().contains(id@),
            final(self).issued() == old(self).issued().insert(id@),
            final(self).left() == old(self).left() - 1,
    ;
}

/// The head of the series once `n` identifiers have been issued from `head` on: the identifier
/// that comes `n` places after `head`.
pub open spec fn after<I: Unique>(head: I, n: nat) -> I
    decreases n,
{
    if n == 0 {
        head
    } else {
        after(head, (n - 1) as nat).successor()
    }
}

/// Issues `count` identifiers, one call of `generate` after the other.
///
/// However many calls are made on one series, no two of them return the same identifier, and
/// none returns an identifier that the series had issued before.
pub fn generate_many<I: Unique + Copy>(source: &mut I, count: usize) -> (ids: Vec<I>)
    requires
        count <= old(source).left(),
    ensures
        ids@.len() == count,
        forall|i: int| 0 <= i < count ==> (#[trigger] ids@[i]) == after(*old(source), i as nat),
        *final(source) == after(*old(source), count as nat),
        distinct(ids@),
        forall|k: I::V| #[trigger] occurs(ids@, k) ==> !old(source).issued().contains(k),
        forall|k: I::V| #[trigger]
            final(source).issued().contains(k) == (old(source).issued().contains(k) || occurs(
                ids@,
                k,
            )),
        final(source).left() == old(source).left() - count,
{
    let mut ids: Vec<I> = Vec::new();
    let ghost before = source.issued();
    let ghost left = source.left();
    while ids.len() < count
        invariant
            ids@.len() <= count,
            count <= left,
            forall|i: int| 0 <= i < ids@.len() ==> (#[trigger] ids@[i]) == after(*old(source), i as nat),
            *source == after(*old(source), ids@.len()),
            source.left() == left - ids@.len(),
            distinct(ids@),
            forall|k: I::V| #[trigger] occurs(ids@, k) ==> !before.contains(k),
            forall|k: I::V| #[trigger]
                source.issued().contains(k) == (before.contains(k) || occurs(ids@, k)),
        decreases count - ids@.len(),
    {
        let ghost sofar = ids@;
        let id = source.generate();
        ids.push(id);
        proof {
            assert(!occurs(sofar, id@));
            assert forall|i: int, j: int| 0 <= i < j < ids@.len() implies (#[trigger] ids@[i])@ != (
            #[trigger] ids@[j])@ by {
                assert(ids@[i] == sofar[i]);
                if j < sofar.len() {
                    assert(ids@[j] == sofar[j]);
                }
            }
            assert forall|k: I::V| #[trigger] occurs(ids@, k) == (occurs(sofar, k) || k == id@) by {
                if occurs(sofar, k) {
                    let i = choose|i: int| 0 <= i < sofar.len() && (#[trigger] sofar[i])@ == k;
                    assert(ids@[i]@ == k);
                }
                if k == id@ {
                    assert(ids@[sofar.len() as int]@ == k);
                }
                if occurs(ids@, k) {
                    let i = choose|i: int| 0 <= i < ids@.len() && (#[trigger] ids@[i])@ == k;
                    if i < sofar.len() {
                        assert(sofar[i]@ == k);
                    }
                }
            }
        }
    }
    ids
}

} // verus!
