//! A ready-made identifier: a counter.

use vstd::prelude::*;
use crate::index::{Index, Unique};

verus! {

/// An identifier that counts upwards through `usize`.
///
/// Consumers may rely on two identifiers of one series being different, and on nothing else:
/// the order of issue is not part of the contract.
#[derive(PartialEq, Eq, Structural, Hash, Copy, Clone, Debug)]
pub struct Counter(usize);

impl View for Counter {
    type V = usize;

    closed spec fn view(&self) -> usize {
        self.0
    }
}

impl Index for Counter {
    fn same(self, other: Self) -> (r: bool) {
        self.0 == other.0
    }
}

impl Unique for Counter {
    closed spec fn issued(&self) -> Set<usize> {
        Set::new(|k: usize| k < self.0)
    }

    closed spec fn left(&self) -> nat {
        (usize::MAX - self.0) as nat
    }

    open spec fn capacity() -> nat {
        usize::MAX as nat
    }

    closed spec fn origin() -> Counter {
        Counter(0)
    }

    closed spec fn successor(&self) -> Counter {
        Counter((self.0 + 1) as usize)
    }

    fn first() -> (head: Self) {
        let head = Counter(0);
        assert(head.issued() =~= Set::<usize>::empty());
        head
    }

    fn has_room(&self, wanted: usize) -> (r: bool) {
        wanted <= usize::MAX - self.0
    }

    fn generate(&mut self) -> (id: Self) {
        let id = *self;
        self.0 = self.0 + 1;
        assert(self.issued() =~= old(self).issued().insert(id@));
        id
    }
}

} // verus!
