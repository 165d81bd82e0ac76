//! A hasher that does not mind the order of what it is given.

use vstd::prelude::*;
use std::collections::hash_map::DefaultHasher;
use std::hash::{BuildHasherDefault, Hash, Hasher};
use std::marker::PhantomData;

verus! {

/// Whether the numbers rise strictly along `s`.
pub open spec fn rising(s: Seq<u64>) -> bool {
    forall|i: int, j: int| 0 <= i < j < s.len() ==> #[trigger] s[i] < #[trigger] s[j]
}

/// Feeds `bytes` to `hasher`, as `Hash::hash` of a byte slice does. Nothing is claimed of what
/// the hasher makes of them.
#[verifier::external_body]
fn feed_bytes<H: Hasher>(hasher: &mut H, bytes: &[u8]) {
    bytes.hash(hasher)
}

/// Feeds `word` to `hasher`, as `Hash::hash` of a `u64` does. Nothing is claimed of what the
/// hasher makes of it.
#[verifier::external_body]
fn feed_word<H: Hasher>(hasher: &mut H, word: u64) {
    word.hash(hasher)
}

/// What `Hasher::finish` returns for `hasher`. Nothing is claimed of the value.
#[verifier::external_body]
fn finished<H: Hasher>(hasher: &H) -> (digest: u64) {
    hasher.finish()
}

/// A hasher for collections without order, built on a hasher `H`.
///
/// Each piece written to it is hashed by an `H` of its own, and the hasher keeps the set of
/// these hashes. The pieces may come in any order: the set is the same, and what `finish` feeds
/// to a last `H`, the hashes in rising order, is the same.
pub struct UnorderedHasher<H> {
    phantom: PhantomData<H>,
    hashes: Vec<u64>,
}

impl<H> UnorderedHasher<H> {
    /// What every hasher satisfies: it keeps its hashes in rising order, each once.
    #[verifier::type_invariant]
    pub closed spec fn wf(&self) -> bool {
        rising(self.hashes@)
    }

    /// The hashes of the pieces written so far.
    pub closed spec fn digests(&self) -> Set<u64> {
        self.hashes@.to_set()
    }

    /// The same hashes in the order in which `finish` uses them.
    pub closed spec fn ordered(&self) -> Seq<u64> {
        self.hashes@
    }

    /// A hasher to which nothing has been written.
    pub fn new() -> (hasher: Self)
        ensures
            hasher.digests() == Set::<u64>::empty(),
    {
        let hasher = UnorderedHasher { phantom: PhantomData, hashes: Vec::new() };
        assert(hasher.hashes@.to_set() =~= Set::<u64>::empty());
        hasher
    }

    /// Takes the hash of one more piece into the set. A hash that is there already changes
    /// nothing.
    pub fn record(&mut self, digest: u64)
        ensures
            final(self).digests() == old(self).digests().insert(digest),
    {
        proof {
            use_type_invariant(&*self);
        }
        let mut at: usize = 0;
        while at < self.hashes.len() && self.hashes[at] < digest
            invariant
                at <= self.hashes.len(),
                rising(self.hashes@),
                forall|i: int| 0 <= i < at ==> (#[trigger] self.hashes@[i]) < digest,
            decreases self.hashes.len() - at,
        {
            at += 1;
        }
        if at < self.hashes.len() && self.hashes[at] == digest {
            proof {
                assert(self.hashes@.contains(digest));
                assert(self.hashes@.to_set() =~= self.hashes@.to_set().insert(digest));
            }
            return ;
        }
        let mut whole = UnorderedHasher::new();
        std::mem::swap(self, &mut whole);
        let UnorderedHasher { phantom, mut hashes } = whole;
        let ghost before = hashes@;
        hashes.insert(at, digest);
        proof {
            let after = hashes@;
            assert forall|i: int, j: int| 0 <= i < j < after.len() implies #[trigger] after[i]
                < #[trigger] after[j] by {
                let a = if i < at { i } else { i - 1 };
                let b = if j < at { j } else { j - 1 };
                if i != at && j != at {
                    assert(before[a] < before[b]);
                } else if i == at {
                    assert(after[j] == before[b]);
                    if b > at {
                        assert(before[at as int] < before[b]);
                    }
                } else {
                    assert(after[i] == before[a]);
                }
            }
            assert forall|x: u64| after.to_set().contains(x) <==> before.to_set().insert(
                digest,
            ).contains(x) by {
                if before.contains(x) {
                    let i = choose|i: int| 0 <= i < before.len() && before[i] == x;
                    let to = if i < at { i } else { i + 1 };
                    assert(after[to] == x);
                }
                if x == digest {
                    assert(after[at as int] == x);
                }
                if after.contains(x) {
                    let i = choose|i: int| 0 <= i < after.len() && after[i] == x;
                    if i != at {
                        let from = if i < at { i } else { i - 1 };
                        assert(before[from] == x);
                    }
                }
            }
            assert(after.to_set() =~= before.to_set().insert(digest));
        }
        *self = UnorderedHasher { phantom, hashes };
    }
}

/// Two rising lists of the same numbers are the same list.
pub proof fn lemma_rising_unique(a: Seq<u64>, b: Seq<u64>)
    requires
        rising(a),
        rising(b),
        a.to_set() == b.to_set(),
    ensures
        a == b,
    decreases a.len(),
{
    if a.len() == 0 {
        if b.len() > 0 {
            assert(b.contains(b[0]));
            assert(a.to_set().contains(b[0]));
        }
        assert(a =~= b);
    } else {
        let top = a.last();
        assert(a.contains(top));
        assert(b.to_set().contains(top));
        let j = choose|j: int| 0 <= j < b.len() && b[j] == top;
        assert(b.contains(b.last()));
        assert(a.to_set().contains(b.last()));
        let i = choose|i: int| 0 <= i < a.len() && a[i] == b.last();
        assert(b.last() == top) by {
            if j < b.len() - 1 {
                assert(b[j] < b[b.len() - 1]);
            }
            if i < a.len() - 1 {
                assert(a[i] < a[a.len() - 1]);
            }
        }
        let a0 = a.drop_last();
        let b0 = b.drop_last();
        assert forall|x: u64| a0.to_set().contains(x) <==> b0.to_set().contains(x) by {
            if a0.contains(x) {
                let m = choose|m: int| 0 <= m < a0.len() && a0[m] == x;
                assert(a[m] < a[a.len() - 1]);
                assert(a.contains(x));
                assert(b.to_set().contains(x));
                let n = choose|n: int| 0 <= n < b.len() && b[n] == x;
                assert(b0[n] == x);
            }
            if b0.contains(x) {
                let m = choose|m: int| 0 <= m < b0.len() && b0[m] == x;
                assert(b[m] < b[b.len() - 1]);
                assert(b.contains(x));
                assert(a.to_set().contains(x));
                let n = choose|n: int| 0 <= n < a.len() && a[n] == x;
                assert(a0[n] == x);
            }
        }
        assert(a0.to_set() =~= b0.to_set());
        assert forall|m: int, n: int| 0 <= m < n < a0.len() implies #[trigger] a0[m] < #[trigger] a0[n] by {
            assert(a[m] < a[n]);
        }
        assert forall|m: int, n: int| 0 <= m < n < b0.len() implies #[trigger] b0[m] < #[trigger] b0[n] by {
            assert(b[m] < b[n]);
        }
        lemma_rising_unique(a0, b0);
        assert(a =~= a0.push(top));
        assert(b =~= b0.push(top));
    }
}

/// The order of the writes does not matter: two hashers that hold the same hashes hand the
/// same list to the last hasher.
pub proof fn lemma_order_of_writes<H>(a: UnorderedHasher<H>, b: UnorderedHasher<H>)
    requires
        a.wf(),
        b.wf(),
        a.digests() == b.digests(),
    ensures
        a.ordered() == b.ordered(),
{
    lemma_rising_unique(a.hashes@, b.hashes@);
}

impl<H> Default for UnorderedHasher<H> {
    fn default() -> (hasher: Self)
        ensures
            hasher.digests() == Set::<u64>::empty(),
    {
        UnorderedHasher::new()
    }
}

impl<H: Hasher + Default> Hasher for UnorderedHasher<H> {
    /// Hashes `bytes` with an `H` of their own and takes the hash into the set.
    fn write(&mut self, bytes: &[u8])
        ensures
            exists|digest: u64| final(self).digests() == old(self).digests().insert(digest),
    {
        let mut hasher = H::default();
        feed_bytes(&mut hasher, bytes);
        let digest = finished(&hasher);
        self.record(digest);
    }

    /// Feeds the hashes to an `H` in rising order, and returns what it makes of them.
    fn finish(&self) -> u64 {
        let mut hasher = H::default();
        let mut i: usize = 0;
        while i < self.hashes.len()
            invariant
                i <= self.hashes.len(),
            decreases self.hashes.len() - i,
        {
            feed_word(&mut hasher, self.hashes[i]);
            i += 1;
        }
        finished(&hasher)
    }
}

/// Builds the hashers for sets and maps of [`crate::utils::UnorderedPair`].
pub type UnorderedBuildHasher = BuildHasherDefault<UnorderedHasher<DefaultHasher>>;

} // verus!
