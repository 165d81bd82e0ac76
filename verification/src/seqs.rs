//! Lists of items: what they hold, and where.

use vstd::prelude::*;
use crate::index::Index;
use crate::topology::{distinct, occurs};

verus! {

/// A place of `s` that holds an item of identity `k`. Where `s` holds `k` once, it is the place.
pub open spec fn position<I: View>(s: Seq<I>, k: I::V) -> int {
    choose|i: int| 0 <= i < s.len() && (#[trigger] s[i])@ == k
}

/// The items of `s` but those of identity `k`, in their order.
pub open spec fn except<I: View>(s: Seq<I>, k: I::V) -> Seq<I>
    decreases s.len(),
{
    if s.len() == 0 {
        Seq::empty()
    } else if s.last()@ == k {
        except(s.drop_last(), k)
    } else {
        except(s.drop_last(), k).push(s.last())
    }
}

/// Whether every item of `a` has its identity in `b`.
pub open spec fn among<I: View>(a: Seq<I>, b: Seq<I>) -> bool {
    forall|i: int| 0 <= i < a.len() ==> occurs(b, (#[trigger] a[i])@)
}

/// Whether no identity is in both `a` and `b`.
pub open spec fn apart<I: View>(a: Seq<I>, b: Seq<I>) -> bool {
    forall|i: int, j: int|
        0 <= i < a.len() && 0 <= j < b.len() ==> (#[trigger] a[i])@ != (#[trigger] b[j])@
}

/// The edges from `source` to each of `targets`, in their order.
pub open spec fn fan<I>(source: I, targets: Seq<I>) -> Seq<(I, I)> {
    Seq::new(targets.len(), |j: int| (source, targets[j]))
}

/// In a list without repeats, the place of an identity is where it stands.
pub proof fn lemma_position<I: View>(s: Seq<I>, i: int)
    requires
        distinct(s),
        0 <= i < s.len(),
    ensures
        position(s, s[i]@) == i,
{
    let p = position(s, s[i]@);
    if p < i {
        assert(s[p]@ != s[i]@);
    } else if i < p {
        assert(s[i]@ != s[p]@);
    }
}

/// `except` keeps exactly the identities other than `k`.
pub proof fn lemma_except<I: View>(s: Seq<I>, k: I::V, other: I::V)
    ensures
        occurs(except(s, k), other) <==> occurs(s, other) && other != k,
    decreases s.len(),
{
    if s.len() > 0 {
        let head = s.drop_last();
        let kept = except(s, k);
        lemma_except(head, k, other);
        if occurs(kept, other) {
            let i = choose|i: int| 0 <= i < kept.len() && (#[trigger] kept[i])@ == other;
            if s.last()@ != k && i == kept.len() - 1 {
                assert(s[s.len() - 1]@ == other);
            } else {
                assert(except(head, k)[i]@ == other);
                let j = choose|j: int| 0 <= j < head.len() && (#[trigger] head[j])@ == other;
                assert(s[j]@ == other);
            }
        }
        if occurs(s, other) && other != k {
            let j = choose|j: int| 0 <= j < s.len() && (#[trigger] s[j])@ == other;
            if j < head.len() {
                assert(head[j]@ == other);
                let i = choose|i: int|
                    0 <= i < except(head, k).len() && (#[trigger] except(head, k)[i])@ == other;
                assert(kept[i]@ == other);
            } else {
                assert(kept[kept.len() - 1]@ == other);
            }
        }
    }
}

/// An identity is in `a + b` exactly when it is in one of the two.
pub proof fn lemma_occurs_add<I: View>(a: Seq<I>, b: Seq<I>, k: I::V)
    ensures
        occurs(a + b, k) <==> occurs(a, k) || occurs(b, k),
{
    if occurs(a, k) {
        let i = choose|i: int| 0 <= i < a.len() && (#[trigger] a[i])@ == k;
        assert((a + b)[i]@ == k);
    }
    if occurs(b, k) {
        let i = choose|i: int| 0 <= i < b.len() && (#[trigger] b[i])@ == k;
        assert((a + b)[a.len() + i]@ == k);
    }
    if occurs(a + b, k) {
        let i = choose|i: int| 0 <= i < (a + b).len() && (#[trigger] (a + b)[i])@ == k;
        if i < a.len() {
            assert(a[i]@ == k);
        } else {
            assert(b[i - a.len()]@ == k);
        }
    }
}

/// A sequence without repeats whose identities all occur in another is no longer than that one.
pub proof fn lemma_distinct_among_len<I: View>(a: Seq<I>, b: Seq<I>)
    requires
        distinct(a),
        among(a, b),
    ensures
        a.len() <= b.len(),
    decreases a.len(),
{
    if a.len() > 0 {
        let last = a.last();
        let head = a.drop_last();
        let m = choose|m: int| 0 <= m < b.len() && (#[trigger] b[m])@ == last@;
        let others = b.remove(m);
        assert forall|i: int| 0 <= i < head.len() implies occurs(others, (#[trigger] head[i])@) by {
            assert(head[i] == a[i]);
            let n = choose|n: int| 0 <= n < b.len() && (#[trigger] b[n])@ == a[i]@;
            assert(a[i]@ != a[a.len() - 1]@);
            if n < m {
                assert(others[n]@ == head[i]@);
            } else {
                assert(others[n - 1]@ == head[i]@);
            }
        }
        assert forall|i: int, j: int| 0 <= i < j < head.len() implies (#[trigger] head[i])@ != (
        #[trigger] head[j])@ by {
            assert(head[i] == a[i] && head[j] == a[j]);
        }
        lemma_distinct_among_len(head, others);
    }
}

/// Whether `s` holds `x`.
pub fn holds<I: Index + Copy>(s: &Vec<I>, x: I) -> (r: bool)
    ensures
        r == occurs(s@, x@),
{
    let mut i: usize = 0;
    while i < s.len()
        invariant
            i <= s.len(),
            forall|j: int| 0 <= j < i ==> (#[trigger] s@[j])@ != x@,
        decreases s.len() - i,
    {
        if s[i].same(x) {
            return true;
        }
        i += 1;
    }
    false
}

/// The first place of `s` that holds `x`, if any.
pub fn find<I: Index + Copy>(s: &Vec<I>, x: I) -> (place: Option<usize>)
    ensures
        place.is_some() == occurs(s@, x@),
        match place {
            Some(i) => i < s@.len() && s@[i as int]@ == x@ && (distinct(s@) ==> i == position(
                s@,
                x@,
            )),
            None => true,
        },
{
    let mut i: usize = 0;
    while i < s.len()
        invariant
            i <= s.len(),
            forall|j: int| 0 <= j < i ==> (#[trigger] s@[j])@ != x@,
        decreases s.len() - i,
    {
        if s[i].same(x) {
            proof {
                if distinct(s@) {
                    lemma_position(s@, i as int);
                }
            }
            return Some(i);
        }
        i += 1;
    }
    None
}

/// A copy of `s`.
pub fn copy_of<I: Copy>(s: &Vec<I>) -> (copy: Vec<I>)
    ensures
        copy@ == s@,
{
    let mut copy: Vec<I> = Vec::new();
    let mut i: usize = 0;
    while i < s.len()
        invariant
            i <= s.len(),
            copy@ == s@.take(i as int),
        decreases s.len() - i,
    {
        copy.push(s[i]);
        proof {
            assert(s@.take(i + 1) =~= s@.take(i as int).push(s@[i as int]));
        }
        i += 1;
    }
    proof {
        assert(s@.take(s@.len() as int) =~= s@);
    }
    copy
}

} // verus!
