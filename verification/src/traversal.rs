//! Walks over a topology: depth first and breadth first.
//!
//! Both walks read a topology and nothing else, so they serve vertices and edges, stored graphs
//! and computed ones alike. A walk keeps a frontier of items that wait to be visited and a list
//! of the items it has discovered; an item is discovered when it enters the frontier, once.

use vstd::prelude::*;
use crate::index::Index;
use crate::seqs::{among, apart, holds, lemma_distinct_among_len, lemma_occurs_add};
use crate::topology::{closed, distinct, leads, occurs, reachable, within, Topology};

verus! {

/// The candidates that are new to `seen`, each once, in the order of their first occurrence.
pub open spec fn unseen<I: View>(seen: Seq<I>, candidates: Seq<I>) -> Seq<I>
    decreases candidates.len(),
{
    if candidates.len() == 0 {
        Seq::empty()
    } else {
        let earlier = unseen(seen, candidates.drop_last());
        if occurs(seen + earlier, candidates.last()@) {
            earlier
        } else {
            earlier.push(candidates.last())
        }
    }
}

/// What a walk still visits, given its frontier and what it has discovered.
///
/// The walk takes the newest item of the frontier (`lifo`) or the oldest, visits it, and puts
/// the neighbours that it had not discovered at the end of the frontier. It is over when the
/// frontier is empty, and also when the item it takes is not an item of the topology. `budget`
/// bounds the number of visits.
pub open spec fn walk_from<T: Topology>(
    t: &T,
    lifo: bool,
    frontier: Seq<T::Item>,
    seen: Seq<T::Item>,
    budget: nat,
) -> Seq<T::Item>
    decreases budget,
{
    if budget == 0 || frontier.len() == 0 {
        Seq::empty()
    } else {
        let item = if lifo {
            frontier.last()
        } else {
            frontier.first()
        };
        let rest = if lifo {
            frontier.drop_last()
        } else {
            frontier.drop_first()
        };
        if !occurs(t.items(), item@) {
            Seq::empty()
        } else {
            let fresh = unseen(seen, t.neighbors(item));
            seq![item] + walk_from(t, lifo, rest + fresh, seen + fresh, (budget - 1) as nat)
        }
    }
}

/// The order in which a depth-first walk from `start` visits the items.
///
/// A walk visits no item twice, so as many visits as the topology has items are enough.
pub open spec fn dfs_order<T: Topology>(t: &T, start: T::Item) -> Seq<T::Item> {
    walk_from(t, true, seq![start], seq![start], t.items().len())
}

/// The order in which a breadth-first walk from `start` visits the items.
pub open spec fn bfs_order<T: Topology>(t: &T, start: T::Item) -> Seq<T::Item> {
    walk_from(t, false, seq![start], seq![start], t.items().len())
}

/// What `unseen` keeps: new identities only, none twice, all of them candidates, and every
/// candidate is then either in `seen` or kept.
pub proof fn lemma_unseen<I: View>(seen: Seq<I>, candidates: Seq<I>)
    ensures
        distinct(unseen(seen, candidates)),
        apart(seen, unseen(seen, candidates)),
        among(unseen(seen, candidates), candidates),
        among(candidates, seen + unseen(seen, candidates)),
    decreases candidates.len(),
{
    let kept = unseen(seen, candidates);
    if candidates.len() > 0 {
        let head = candidates.drop_last();
        let c = candidates.last();
        let earlier = unseen(seen, head);
        lemma_unseen(seen, head);
        lemma_occurs_add(seen, earlier, c@);
        assert forall|i: int| 0 <= i < kept.len() implies occurs(candidates, (#[trigger] kept[i])@) by {
            if i < earlier.len() {
                let j = choose|j: int| 0 <= j < head.len() && (#[trigger] head[j])@ == earlier[i]@;
                assert(candidates[j]@ == kept[i]@);
            } else {
                assert(candidates[candidates.len() - 1]@ == kept[i]@);
            }
        }
        assert forall|i: int| 0 <= i < candidates.len() implies occurs(
            seen + kept,
            (#[trigger] candidates[i])@,
        ) by {
            lemma_occurs_add(seen, kept, candidates[i]@);
            if i < head.len() {
                assert(head[i]@ == candidates[i]@);
                lemma_occurs_add(seen, earlier, head[i]@);
                if occurs(earlier, head[i]@) {
                    let j = choose|j: int|
                        0 <= j < earlier.len() && (#[trigger] earlier[j])@ == head[i]@;
                    assert(kept[j]@ == candidates[i]@);
                }
            } else {
                if occurs(earlier, c@) {
                    let j = choose|j: int| 0 <= j < earlier.len() && (#[trigger] earlier[j])@ == c@;
                    assert(kept[j]@ == c@);
                } else if !occurs(seen, c@) {
                    assert(kept[kept.len() - 1]@ == c@);
                }
            }
        }
    }
}

/// Marks the adjacent items that are new as discovered, and returns them.
pub fn discover<I: Index + Copy>(adjacent: &Vec<I>, discovered: &mut Vec<I>) -> (fresh: Vec<I>)
    ensures
        fresh@ == unseen(old(discovered)@, adjacent@),
        final(discovered)@ == old(discovered)@ + fresh@,
{
    let mut fresh: Vec<I> = Vec::new();
    let mut j: usize = 0;
    while j < adjacent.len()
        invariant
            j <= adjacent.len(),
            fresh@ == unseen(old(discovered)@, adjacent@.take(j as int)),
            discovered@ == old(discovered)@ + fresh@,
        decreases adjacent.len() - j,
    {
        let candidate = adjacent[j];
        proof {
            assert(adjacent@.take(j + 1).drop_last() == adjacent@.take(j as int));
        }
        if !holds(discovered, candidate) {
            discovered.push(candidate);
            fresh.push(candidate);
        }
        proof {
            assert(discovered@ == old(discovered)@ + fresh@);
        }
        j += 1;
    }
    proof {
        assert(adjacent@.take(adjacent.len() as int) == adjacent@);
    }
    fresh
}

/// What holds of a walk from `start` after any number of visits: `done` are the items visited,
/// `frontier` those that wait, `seen` those discovered.
///
/// No identity is visited or waits twice; the discovered items are the visited and the waiting
/// ones; every visited item is an item of the topology, and its neighbours are discovered;
/// every discovered item can be reached from `start`.
pub open spec fn walk_inv<T: Topology>(
    t: &T,
    start: T::Item,
    done: Seq<T::Item>,
    frontier: Seq<T::Item>,
    seen: Seq<T::Item>,
) -> bool {
    &&& distinct(done)
    &&& distinct(frontier)
    &&& apart(done, frontier)
    &&& among(done, seen)
    &&& among(frontier, seen)
    &&& among(seen, done + frontier)
    &&& among(done, t.items())
    &&& forall|i: int| 0 <= i < seen.len() ==> reachable(t, start@, (#[trigger] seen[i])@)
    &&& forall|i: int, k: <T::Item as View>::V|
        0 <= i < done.len() && #[trigger] occurs(t.neighbors(done[i]), k) ==> occurs(seen, k)
    &&& occurs(seen, start@)
    &&& closed(t) && occurs(t.items(), start@) ==> among(seen, t.items())
}

/// More hops reach whatever fewer hops reach.
pub proof fn lemma_within_more<T: Topology>(
    t: &T,
    from: <T::Item as View>::V,
    to: <T::Item as View>::V,
    hops: nat,
    more: nat,
)
    requires
        within(t, from, to, hops),
        hops <= more,
    ensures
        within(t, from, to, more),
    decreases more,
{
    if hops < more {
        lemma_within_more(t, from, to, hops, (more - 1) as nat);
    }
}

/// A visit keeps what holds of a walk: the item at `at` leaves the frontier as visited, and its
/// new neighbours enter at the end. There was room for the visit: fewer items had been visited
/// than the topology has.
pub proof fn lemma_walk_step<T: Topology>(
    t: &T,
    start: T::Item,
    done: Seq<T::Item>,
    frontier: Seq<T::Item>,
    seen: Seq<T::Item>,
    at: int,
)
    requires
        t.wf(),
        walk_inv(t, start, done, frontier, seen),
        0 <= at < frontier.len(),
        occurs(t.items(), frontier[at]@),
    ensures
        walk_inv(
            t,
            start,
            done.push(frontier[at]),
            frontier.remove(at) + unseen(seen, t.neighbors(frontier[at])),
            seen + unseen(seen, t.neighbors(frontier[at])),
        ),
        done.len() < t.items().len(),
{
    let item = frontier[at];
    let near = t.neighbors(item);
    let fresh = unseen(seen, near);
    let rest = frontier.remove(at);
    let done2 = done.push(item);
    let frontier2 = rest + fresh;
    let seen2 = seen + fresh;
    lemma_unseen(seen, near);

    assert(distinct(done2)) by {
        assert forall|i: int, j: int| 0 <= i < j < done2.len() implies (#[trigger] done2[i])@ != (
        #[trigger] done2[j])@ by {
            assert(done2[i] == done[i]);
            if j < done.len() {
                assert(done2[j] == done[j]);
            } else {
                assert(done2[j] == frontier[at]);
            }
        }
    }
    assert forall|i: int| 0 <= i < rest.len() implies occurs(seen, (#[trigger] rest[i])@) && rest[i]@
        != item@ && occurs(frontier, rest[i]@) by {
        if i < at {
            assert(rest[i] == frontier[i]);
        } else {
            assert(rest[i] == frontier[i + 1]);
        }
    }
    assert(distinct(frontier2)) by {
        assert forall|i: int, j: int| 0 <= i < j < frontier2.len() implies (
        #[trigger] frontier2[i])@ != (#[trigger] frontier2[j])@ by {
            if j < rest.len() {
                assert(frontier2[i] == rest[i] && frontier2[j] == rest[j]);
                let a = if i < at { i } else { i + 1 };
                let b = if j < at { j } else { j + 1 };
                assert(rest[i] == frontier[a] && rest[j] == frontier[b]);
            } else if i < rest.len() {
                assert(frontier2[i] == rest[i]);
                assert(frontier2[j] == fresh[j - rest.len()]);
                let m = choose|m: int| 0 <= m < seen.len() && (#[trigger] seen[m])@ == rest[i]@;
                assert(seen[m]@ != fresh[j - rest.len()]@);
            } else {
                assert(frontier2[i] == fresh[i - rest.len()]);
                assert(frontier2[j] == fresh[j - rest.len()]);
            }
        }
    }
    assert(occurs(seen, item@));
    assert(apart(done2, frontier2)) by {
        assert forall|i: int, j: int|
            0 <= i < done2.len() && 0 <= j < frontier2.len() implies (#[trigger] done2[i])@ != (
        #[trigger] frontier2[j])@ by {
            if j < rest.len() {
                assert(frontier2[j] == rest[j]);
                let b = if j < at { j } else { j + 1 };
                assert(rest[j] == frontier[b]);
                if i < done.len() {
                    assert(done2[i] == done[i]);
                } else {
                    assert(done2[i] == frontier[at]);
                }
            } else {
                assert(frontier2[j] == fresh[j - rest.len()]);
                let x = done2[i];
                assert(occurs(seen, x@)) by {
                    if i < done.len() {
                        assert(done2[i] == done[i]);
                    }
                }
                let m = choose|m: int| 0 <= m < seen.len() && (#[trigger] seen[m])@ == x@;
                assert(seen[m]@ != fresh[j - rest.len()]@);
            }
        }
    }
    assert(among(done2, seen2)) by {
        assert forall|i: int| 0 <= i < done2.len() implies occurs(seen2, (#[trigger] done2[i])@) by {
            lemma_occurs_add(seen, fresh, done2[i]@);
            if i < done.len() {
                assert(done2[i] == done[i]);
            }
        }
    }
    assert(among(frontier2, seen2)) by {
        assert forall|j: int| 0 <= j < frontier2.len() implies occurs(
            seen2,
            (#[trigger] frontier2[j])@,
        ) by {
            lemma_occurs_add(seen, fresh, frontier2[j]@);
            if j < rest.len() {
                assert(frontier2[j] == rest[j]);
            } else {
                assert(frontier2[j] == fresh[j - rest.len()]);
            }
        }
    }
    assert(among(seen2, done2 + frontier2)) by {
        assert forall|i: int| 0 <= i < seen2.len() implies occurs(
            done2 + frontier2,
            (#[trigger] seen2[i])@,
        ) by {
            let k = seen2[i]@;
            lemma_occurs_add(done2, frontier2, k);
            lemma_occurs_add(rest, fresh, k);
            if i < seen.len() {
                assert(seen2[i] == seen[i]);
                lemma_occurs_add(done, frontier, k);
                if occurs(done, k) {
                    let m = choose|m: int| 0 <= m < done.len() && (#[trigger] done[m])@ == k;
                    assert(done2[m]@ == k);
                } else {
                    let m = choose|m: int| 0 <= m < frontier.len() && (#[trigger] frontier[m])@ == k;
                    if m == at {
                        assert(done2[done.len() as int]@ == k);
                    } else if m < at {
                        assert(rest[m]@ == k);
                    } else {
                        assert(rest[m - 1]@ == k);
                    }
                }
            } else {
                assert(seen2[i] == fresh[i - seen.len()]);
            }
        }
    }
    assert(among(done2, t.items())) by {
        assert forall|i: int| 0 <= i < done2.len() implies occurs(
            t.items(),
            (#[trigger] done2[i])@,
        ) by {
            if i < done.len() {
                assert(done2[i] == done[i]);
            }
        }
    }
    assert forall|j: int| 0 <= j < fresh.len() implies leads(t, item, (#[trigger] fresh[j])@) by {}
    assert forall|i: int| 0 <= i < seen2.len() implies reachable(t, start@, (#[trigger] seen2[i])@) by {
        if i < seen.len() {
            assert(seen2[i] == seen[i]);
        } else {
            let x = fresh[i - seen.len()];
            assert(seen2[i] == x);
            let m = choose|m: int| 0 <= m < seen.len() && (#[trigger] seen[m])@ == item@;
            assert(reachable(t, start@, seen[m]@));
            let hops = choose|hops: nat| within(t, start@, item@, hops);
            assert(leads(t, item, x@));
            assert(within(t, start@, x@, hops + 1));
        }
    }
    assert forall|i: int, k: <T::Item as View>::V|
        0 <= i < done2.len() && #[trigger] occurs(t.neighbors(done2[i]), k) implies occurs(
        seen2,
        k,
    ) by {
        lemma_occurs_add(seen, fresh, k);
        if i < done.len() {
            assert(done2[i] == done[i]);
        } else {
            assert(done2[i] == item);
            let m = choose|m: int| 0 <= m < near.len() && (#[trigger] near[m])@ == k;
            assert(occurs(seen + fresh, near[m]@));
        }
    }
    assert(occurs(seen2, start@)) by {
        lemma_occurs_add(seen, fresh, start@);
    }
    if closed(t) && occurs(t.items(), start@) {
        assert forall|i: int| 0 <= i < seen2.len() implies occurs(
            t.items(),
            (#[trigger] seen2[i])@,
        ) by {
            if i < seen.len() {
                assert(seen2[i] == seen[i]);
            } else {
                assert(seen2[i] == fresh[i - seen.len()]);
                assert(leads(t, item, fresh[i - seen.len()]@));
            }
        }
    }
    lemma_distinct_among_len(done2, t.items());
}

/// A collection of items that holds `start` and, with each of its items, the neighbours of that
/// item holds whatever can be reached from `start`.
pub proof fn lemma_closed_under_steps<T: Topology>(
    t: &T,
    start: T::Item,
    done: Seq<T::Item>,
    to: <T::Item as View>::V,
    hops: nat,
)
    requires
        t.wf(),
        occurs(done, start@),
        forall|i: int, k: <T::Item as View>::V|
            0 <= i < done.len() && #[trigger] occurs(t.neighbors(done[i]), k) ==> occurs(done, k),
        within(t, start@, to, hops),
    ensures
        occurs(done, to),
    decreases hops,
{
    if hops > 0 {
        if within(t, start@, to, (hops - 1) as nat) {
            lemma_closed_under_steps(t, start, done, to, (hops - 1) as nat);
        } else {
            let via = choose|via: T::Item|
                within(t, start@, via@, (hops - 1) as nat) && #[trigger] leads(t, via, to);
            lemma_closed_under_steps(t, start, done, via@, (hops - 1) as nat);
            let i = choose|i: int| 0 <= i < done.len() && (#[trigger] done[i])@ == via@;
            t.lemma_neighbors_of_same(via, done[i]);
            assert(occurs(t.neighbors(done[i]), to));
        }
    }
}

/// A walk from `start` starts with `start` waiting and discovered, and nothing visited.
pub proof fn lemma_walk_start<T: Topology>(t: &T, start: T::Item)
    ensures
        walk_inv(t, start, Seq::empty(), seq![start], seq![start]),
{
    let one = seq![start];
    assert(one[0]@ == start@);
    assert(within(t, start@, start@, 0));
    assert(Seq::<T::Item>::empty() + one =~= one);
    if closed(t) && occurs(t.items(), start@) {
        assert(among(one, t.items()));
    }
}

/// Where a walk has nothing left to visit, it has visited whatever can be reached from `start`,
/// provided that `start` is an item of the topology and no step leads out of it.
pub proof fn lemma_walk_end<T: Topology>(
    t: &T,
    start: T::Item,
    done: Seq<T::Item>,
    seen: Seq<T::Item>,
)
    requires
        t.wf(),
        walk_inv(t, start, done, Seq::empty(), seen),
    ensures
        forall|k: <T::Item as View>::V| reachable(t, start@, k) ==> occurs(done, k),
{
    assert(done + Seq::<T::Item>::empty() =~= done);
    assert forall|k: <T::Item as View>::V| occurs(seen, k) implies occurs(done, k) by {
        let i = choose|i: int| 0 <= i < seen.len() && (#[trigger] seen[i])@ == k;
        assert(occurs(done, seen[i]@));
    }
    assert forall|k: <T::Item as View>::V| reachable(t, start@, k) implies occurs(done, k) by {
        let hops = choose|hops: nat| within(t, start@, k, hops);
        lemma_closed_under_steps(t, start, done, k, hops);
    }
}

/// Walks the topology depth first from `start` and returns the items in the order of the visits.
///
/// The walk keeps a stack that holds `start` at first. It takes the item pushed last, visits it
/// and pushes those of its neighbours that it had not discovered, so the neighbour that the
/// topology names last is visited first. It ends when the stack is empty. It also ends, without
/// visiting more, when it takes an item that the topology does not hold.
///
/// No item is visited twice, every visited item is an item of the topology that steps lead to
/// from `start`, and where `start` is an item of a topology that no step leads out of, the walk
/// visits all that can be reached.
pub fn dfs<T: Topology>(topology: &T, start: T::Item) -> (visited: Vec<T::Item>) where
    T::Item: Copy,

    requires
        topology.wf(),
    ensures
        visited@ == dfs_order(topology, start),
        distinct(visited@),
        among(visited@, topology.items()),
        forall|i: int|
            0 <= i < visited@.len() ==> reachable(topology, start@, (#[trigger] visited@[i])@),
        closed(topology) && occurs(topology.items(), start@) ==> forall|
            k: <T::Item as View>::V,
        | reachable(topology, start@, k) ==> occurs(visited@, k),
{
    let mut discovered: Vec<T::Item> = Vec::new();
    let mut stack: Vec<T::Item> = Vec::new();
    let mut visited: Vec<T::Item> = Vec::new();
    discovered.push(start);
    stack.push(start);
    proof {
        lemma_walk_start(topology, start);
        assert(stack@ =~= seq![start]);
        assert(discovered@ =~= seq![start]);
        assert(visited@ =~= Seq::empty());
        assert(visited@ + dfs_order(topology, start) =~= dfs_order(topology, start));
    }
    while stack.len() > 0
        invariant
            topology.wf(),
            walk_inv(topology, start, visited@, stack@, discovered@),
            visited@.len() <= topology.items().len(),
            dfs_order(topology, start) == visited@ + walk_from(
                topology,
                true,
                stack@,
                discovered@,
                (topology.items().len() - visited@.len()) as nat,
            ),
        ensures
            walk_inv(topology, start, visited@, stack@, discovered@),
            dfs_order(topology, start) == visited@,
            closed(topology) && occurs(topology.items(), start@) ==> stack@.len() == 0,
        decreases topology.items().len() - visited@.len(),
    {
        let item = stack[stack.len() - 1];
        let ghost before = visited@;
        let ghost waiting = stack@;
        let ghost seen = discovered@;
        match topology.adjacent_to(item) {
            None => {
                proof {
                    assert(visited@ + Seq::<T::Item>::empty() =~= visited@);
                    assert(occurs(discovered@, stack@[stack@.len() - 1]@));
                }
                break ;
            },
            Some(adjacent) => {
                let mut fresh = discover(&adjacent, &mut discovered);
                stack.pop();
                stack.append(&mut fresh);
                visited.push(item);
                proof {
                    lemma_walk_step(topology, start, before, waiting, seen, waiting.len() - 1);
                    assert(waiting.remove(waiting.len() - 1) =~= waiting.drop_last());
                    let rest = walk_from(
                        topology,
                        true,
                        stack@,
                        discovered@,
                        (topology.items().len() - visited@.len()) as nat,
                    );
                    assert(before + (seq![item] + rest) =~= visited@ + rest);
                }
            },
        }
    }
    proof {
        if stack@.len() == 0 {
            lemma_walk_end(topology, start, visited@, discovered@);
        }
    }
    visited
}

/// Whether each item of `order` is as near to `start` as every item after it: whatever number
/// of hops reaches a later item reaches an earlier one too.
pub open spec fn nearer_first<T: Topology>(t: &T, start: T::Item, order: Seq<T::Item>) -> bool {
    forall|i: int, j: int, hops: nat|
        0 <= i <= j < order.len() && #[trigger] within(t, start@, order[j]@, hops) ==> within(
            t,
            start@,
            #[trigger] order[i]@,
            hops,
        )
}

/// What holds of the queue of a breadth-first walk from `start` whose first `head` items are
/// visited, with the number of hops, `level`, at which each item was discovered.
///
/// The levels never fall along the queue and span at most two values from the head on; the
/// level of an item is the least number of hops that reaches it; and whatever is no farther
/// from `start` than the head is in the queue.
pub open spec fn bfs_levels<T: Topology>(
    t: &T,
    start: T::Item,
    queue: Seq<T::Item>,
    head: int,
    level: Seq<nat>,
) -> bool {
    &&& level.len() == queue.len()
    &&& 0 <= head <= queue.len()
    &&& forall|i: int, j: int| 0 <= i <= j < level.len() ==> #[trigger] level[i] <= #[trigger] level[j]
    &&& head < queue.len() ==> forall|j: int|
        0 <= j < level.len() ==> #[trigger] level[j] <= level[head] + 1
    &&& forall|i: int| 0 <= i < queue.len() ==> within(t, start@, (#[trigger] queue[i])@, level[i])
    &&& forall|i: int, hops: nat|
        0 <= i < queue.len() && #[trigger] within(t, start@, queue[i]@, hops) ==> level[i] <= hops
    &&& head < queue.len() ==> forall|k: <T::Item as View>::V, hops: nat|
        #[trigger] within(t, start@, k, hops) && hops <= level[head] ==> occurs(queue, k)
}

/// A visit keeps what holds of the queue: the head is visited, and its new neighbours enter at
/// the end, one hop farther than the head.
pub proof fn lemma_bfs_step<T: Topology>(
    t: &T,
    start: T::Item,
    queue: Seq<T::Item>,
    head: int,
    level: Seq<nat>,
)
    requires
        t.wf(),
        0 <= head < queue.len(),
        walk_inv(t, start, queue.take(head), queue.skip(head), queue),
        bfs_levels(t, start, queue, head, level),
        occurs(t.items(), queue[head]@),
    ensures
        walk_inv(
            t,
            start,
            (queue + unseen(queue, t.neighbors(queue[head]))).take(head + 1),
            (queue + unseen(queue, t.neighbors(queue[head]))).skip(head + 1),
            queue + unseen(queue, t.neighbors(queue[head])),
        ),
        bfs_levels(
            t,
            start,
            queue + unseen(queue, t.neighbors(queue[head])),
            head + 1,
            level + Seq::new(
                unseen(queue, t.neighbors(queue[head])).len(),
                |i: int| (level[head] + 1) as nat,
            ),
        ),
        head < t.items().len(),
{
    let item = queue[head];
    let near = t.neighbors(item);
    let fresh = unseen(queue, near);
    let queue2 = queue + fresh;
    let here = level[head];
    let level2 = level + Seq::new(fresh.len(), |i: int| (here + 1) as nat);
    let done = queue.take(head);
    let done2 = queue2.take(head + 1);
    lemma_unseen(queue, near);
    lemma_walk_step(t, start, done, queue.skip(head), queue, 0);
    assert(queue.skip(head)[0] == item);
    assert(done.push(item) =~= done2);
    assert(queue.skip(head).remove(0) + fresh =~= queue2.skip(head + 1));

    assert forall|i: int| 0 <= i < queue2.len() implies within(
        t,
        start@,
        (#[trigger] queue2[i])@,
        level2[i],
    ) by {
        if i < queue.len() {
            assert(queue2[i] == queue[i]);
        } else {
            let x = fresh[i - queue.len()];
            assert(queue2[i] == x);
            assert(leads(t, item, x@));
            assert(within(t, start@, queue[head]@, here));
            assert(within(t, start@, x@, here + 1));
        }
    }
    assert forall|i: int, hops: nat|
        0 <= i < queue2.len() && #[trigger] within(t, start@, queue2[i]@, hops) implies level2[i]
        <= hops by {
        if i < queue.len() {
            assert(queue2[i] == queue[i]);
        } else {
            let x = fresh[i - queue.len()];
            assert(queue2[i] == x);
            if hops <= here {
                assert(occurs(queue, x@));
                let m = choose|m: int| 0 <= m < queue.len() && (#[trigger] queue[m])@ == x@;
                assert(queue[m]@ != fresh[i - queue.len()]@);
            }
        }
    }
    if head + 1 < queue2.len() {
        let next = level2[head + 1];
        assert(level2[head] == here);
        assert(here <= next <= here + 1);
        assert forall|k: <T::Item as View>::V, hops: nat| #[trigger]
            within(t, start@, k, hops) && hops <= next implies occurs(queue2, k) by {
            lemma_occurs_add(queue, fresh, k);
            if hops <= here {
            } else if within(t, start@, k, (hops - 1) as nat) {
            } else {
                let via = choose|via: T::Item|
                    within(t, start@, via@, (hops - 1) as nat) && #[trigger] leads(t, via, k);
                assert(occurs(queue, via@));
                let i = choose|i: int| 0 <= i < queue.len() && (#[trigger] queue[i])@ == via@;
                assert(within(t, start@, queue[i]@, (hops - 1) as nat));
                assert(level[i] <= here);
                assert(level2[i] == level[i]);
                assert(i <= head);
                assert(done2[i] == queue[i]);
                t.lemma_neighbors_of_same(via, done2[i]);
                assert(occurs(t.neighbors(done2[i]), k));
            }
        }
    }
}

/// Walks the topology breadth first from `start` and returns the items in the order of the
/// visits.
///
/// The walk keeps a queue that holds `start` at first. It takes the item that has waited
/// longest, visits it and puts those of its neighbours that it had not discovered at the end, in
/// the order in which the topology names them. It ends when nothing waits. It also ends,
/// without visiting more, when it takes an item that the topology does not hold.
///
/// No item is visited twice, every visited item is an item of the topology that steps lead to
/// from `start`, and nearer items are visited first. Where `start` is an item of a topology that
/// no step leads out of, the walk visits all that can be reached.
pub fn bfs<T: Topology>(topology: &T, start: T::Item) -> (visited: Vec<T::Item>) where
    T::Item: Copy,

    requires
        topology.wf(),
    ensures
        visited@ == bfs_order(topology, start),
        distinct(visited@),
        among(visited@, topology.items()),
        forall|i: int|
            0 <= i < visited@.len() ==> reachable(topology, start@, (#[trigger] visited@[i])@),
        nearer_first(topology, start, visited@),
        closed(topology) && occurs(topology.items(), start@) ==> forall|
            k: <T::Item as View>::V,
        | reachable(topology, start@, k) ==> occurs(visited@, k),
{
    let mut queue: Vec<T::Item> = Vec::new();
    let mut head: usize = 0;
    queue.push(start);
    let ghost mut level: Seq<nat> = seq![0nat];
    proof {
        lemma_walk_start(topology, start);
        assert(queue@ =~= seq![start]);
        assert(queue@.take(0) =~= Seq::empty());
        assert(queue@.skip(0) =~= seq![start]);
        assert(queue@.take(0) + bfs_order(topology, start) =~= bfs_order(topology, start));
        assert(within(topology, start@, start@, 0));
        assert forall|k: <T::Item as View>::V, hops: nat| #[trigger]
            within(topology, start@, k, hops) && hops <= level[0] implies occurs(queue@, k) by {
            assert(queue@[0]@ == start@);
        }
    }
    while head < queue.len()
        invariant
            topology.wf(),
            head <= queue@.len(),
            walk_inv(topology, start, queue@.take(head as int), queue@.skip(head as int), queue@),
            bfs_levels(topology, start, queue@, head as int, level),
            head <= topology.items().len(),
            bfs_order(topology, start) == queue@.take(head as int) + walk_from(
                topology,
                false,
                queue@.skip(head as int),
                queue@,
                (topology.items().len() - head) as nat,
            ),
        ensures
            head <= queue@.len(),
            walk_inv(topology, start, queue@.take(head as int), queue@.skip(head as int), queue@),
            bfs_levels(topology, start, queue@, head as int, level),
            bfs_order(topology, start) == queue@.take(head as int),
            closed(topology) && occurs(topology.items(), start@) ==> head == queue@.len(),
        decreases topology.items().len() - head,
    {
        let item = queue[head];
        let ghost waiting = queue@;
        match topology.adjacent_to(item) {
            None => {
                proof {
                    assert(queue@.skip(head as int)[0] == item);
                    assert(queue@.take(head as int) + Seq::<T::Item>::empty() =~= queue@.take(
                        head as int,
                    ));
                }
                break ;
            },
            Some(adjacent) => {
                let fresh = discover(&adjacent, &mut queue);
                proof {
                    lemma_bfs_step(topology, start, waiting, head as int, level);
                    level = level + Seq::new(fresh@.len(), |i: int| (level[head as int] + 1) as nat);
                    assert(waiting.skip(head as int)[0] == item);
                    assert(waiting.skip(head as int).drop_first() + fresh@ =~= queue@.skip(
                        head + 1,
                    ));
                    let rest = walk_from(
                        topology,
                        false,
                        queue@.skip(head + 1),
                        queue@,
                        (topology.items().len() - (head + 1)) as nat,
                    );
                    assert(waiting.take(head as int) + (seq![item] + rest) =~= queue@.take(head + 1)
                        + rest);
                }
                head += 1;
            },
        }
    }
    let ghost all = queue@;
    queue.truncate(head);
    proof {
        let order = queue@;
        if closed(topology) && occurs(topology.items(), start@) {
            lemma_walk_end(topology, start, order, order);
        }
        assert forall|i: int, j: int, hops: nat|
            0 <= i <= j < order.len() && #[trigger] within(
                topology,
                start@,
                order[j]@,
                hops,
            ) implies within(topology, start@, #[trigger] order[i]@, hops) by {
            assert(order[i] == all[i] && order[j] == all[j]);
            assert(level[i] <= level[j]);
            assert(level[j] <= hops);
            lemma_within_more(topology, start@, all[i]@, level[i], hops);
        }
    }
    queue
}

} // verus!
