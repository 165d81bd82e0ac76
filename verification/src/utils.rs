//! Small tools for handling graph items.

use vstd::prelude::*;

pub mod unordered_hasher;
pub mod unordered_pair;

pub use unordered_hasher::UnorderedHasher;
pub use unordered_pair::UnorderedPair;

verus! {

/// Something with two ends that can be turned round, such as an edge.
pub trait Reverse: Sized {
    /// What turning round gives.
    type Output;

    /// The value turned round.
    spec fn reversed(self) -> Self::Output;

    /// Turns the value round.
    fn rev(self) -> (r: Self::Output)
        ensures
            r == self.reversed(),
    ;
}

impl<A, B> Reverse for (A, B) {
    type Output = (B, A);

    open spec fn reversed(self) -> (B, A) {
        (self.1, self.0)
    }

    fn rev(self) -> (r: (B, A)) {
        (self.1, self.0)
    }
}

/// A pair of an `A` and a `C` that two maps turn into a pair of a `B` and a `D`.
pub trait Bifunctor<A, B, C, D>: Sized {
    /// What the two maps give together.
    type Output;

    /// The two parts that the maps are applied to.
    spec fn parts(self) -> (A, C);

    /// The two parts of what the maps give.
    spec fn mapped(out: Self::Output) -> (B, D);

    /// Applies `f` to the first part and `g` to the second.
    fn bimap<F: Fn(A) -> B, G: Fn(C) -> D>(self, f: F, g: G) -> (out: Self::Output)
        requires
            call_requires(f, (self.parts().0,)),
            call_requires(g, (self.parts().1,)),
        ensures
            call_ensures(f, (self.parts().0,), Self::mapped(out).0),
            call_ensures(g, (self.parts().1,), Self::mapped(out).1),
    ;
}

impl<A, B, C, D> Bifunctor<A, B, C, D> for (A, C) {
    type Output = (B, D);

    open spec fn parts(self) -> (A, C) {
        self
    }

    open spec fn mapped(out: (B, D)) -> (B, D) {
        out
    }

    fn bimap<F: Fn(A) -> B, G: Fn(C) -> D>(self, f: F, g: G) -> (out: (B, D)) {
        (f(self.0), g(self.1))
    }
}

/// A pair of an `A` and a `B`, either of which may be missing, that a combinator turns into
/// one `C` where both are there.
pub trait Collapse<A, B, C>: Sized {
    /// What the combinator gives, if anything.
    type Output;

    /// The two parts, where both are there.
    spec fn both(self) -> Option<(A, B)>;

    /// What the output holds.
    spec fn held(out: Self::Output) -> Option<C>;

    /// Applies `f` to the two parts where both are there, and gives nothing where one is
    /// missing.
    fn collapse<F: Fn(A, B) -> C>(self, f: F) -> (out: Self::Output)
        requires
            self.both().is_some() ==> call_requires(f, self.both().unwrap()),
        ensures
            self.both().is_some() == Self::held(out).is_some(),
            self.both().is_some() ==> call_ensures(
                f,
                self.both().unwrap(),
                Self::held(out).unwrap(),
            ),
    ;
}

impl<A, B, C> Collapse<A, B, C> for (Option<A>, Option<B>) {
    type Output = Option<C>;

    open spec fn both(self) -> Option<(A, B)> {
        match self {
            (Some(a), Some(b)) => Some((a, b)),
            _ => None,
        }
    }

    open spec fn held(out: Option<C>) -> Option<C> {
        out
    }

    fn collapse<F: Fn(A, B) -> C>(self, f: F) -> (out: Option<C>) {
        match self {
            (Some(a), Some(b)) => Some(f(a, b)),
            _ => None,
        }
    }
}

} // verus!
