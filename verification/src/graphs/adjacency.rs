//! A graph that stores, for each vertex, the vertices that its edges lead to.

use vstd::prelude::*;
use std::marker::PhantomData;
use crate::construct::Construct;
use crate::index::Index;
use crate::marker::{Directed, Undirected};
use crate::providers::{EdgeProvider, VertexProvider};
use crate::seqs::{
    copy_of, except, fan, find, holds, lemma_except, lemma_occurs_add, lemma_position, position,
};
use crate::topology::{closed, distinct, leads, occurs, Topology};
use crate::utils::unordered_pair::{
    lemma_fan_same, lemma_pairs, lemma_same_pair, pairs, unordered, UnorderedPair,
};

verus! {

/// What an adjacency graph holds: its vertices in the order in which they were added, and for
/// each vertex, at the same place, the targets of its edges, the newest first.
pub struct Adjacency<I> {
    pub ids: Seq<I>,
    pub links: Seq<Seq<I>>,
}

impl<I: View> Adjacency<I> {
    /// Every vertex has its list of targets, no vertex occurs twice, and no list names a
    /// target twice.
    pub open spec fn shaped(self) -> bool {
        &&& self.ids.len() == self.links.len()
        &&& distinct(self.ids)
        &&& forall|i: int| 0 <= i < self.links.len() ==> distinct(#[trigger] self.links[i])
    }

    /// The targets of the edges that leave the vertex `a`: none where `a` is no vertex.
    pub open spec fn links_of(self, a: I::V) -> Seq<I> {
        if occurs(self.ids, a) {
            self.links[position(self.ids, a)]
        } else {
            Seq::empty()
        }
    }

    /// Whether an edge leads from the vertex `a` to `b`.
    pub open spec fn joins(self, a: I::V, b: I::V) -> bool {
        occurs(self.ids, a) && occurs(self.links_of(a), b)
    }

    /// Whether every edge leads to a vertex of the graph. Linking keeps it so; removing a
    /// vertex that edges lead to does not.
    pub open spec fn sound(self) -> bool {
        forall|a: I::V, b: I::V| #[trigger] self.joins(a, b) ==> occurs(self.ids, b)
    }

    /// Whether every edge has its counterpart, which leads back.
    pub open spec fn symmetric(self) -> bool {
        forall|a: I::V, b: I::V| #[trigger] self.joins(a, b) ==> self.joins(b, a)
    }

    /// Whether an edge from `a` to `b` can be added: both are vertices, and it is not there.
    pub open spec fn may_link(self, a: I::V, b: I::V) -> bool {
        occurs(self.ids, a) && occurs(self.ids, b) && !self.joins(a, b)
    }

    /// Whether the edge from `a` to `b` can be removed: both are vertices, and it is there.
    pub open spec fn may_unlink(self, a: I::V, b: I::V) -> bool {
        occurs(self.ids, a) && occurs(self.ids, b) && self.joins(a, b)
    }

    /// The graph with `id` as its last vertex, without edges.
    pub open spec fn with_vertex(self, id: I) -> Self {
        Adjacency { ids: self.ids.push(id), links: self.links.push(Seq::empty()) }
    }

    /// The graph without the vertex `id` and its list of targets.
    pub open spec fn without_vertex(self, id: I::V) -> Self {
        Adjacency {
            ids: self.ids.remove(position(self.ids, id)),
            links: self.links.remove(position(self.ids, id)),
        }
    }

    /// The graph with `b` as the first target of the vertex `a`.
    pub open spec fn with_link(self, a: I::V, b: I) -> Self {
        Adjacency {
            ids: self.ids,
            links: self.links.update(position(self.ids, a), seq![b] + self.links_of(a)),
        }
    }

    /// The graph without `b` among the targets of the vertex `a`.
    pub open spec fn without_link(self, a: I::V, b: I::V) -> Self {
        Adjacency {
            ids: self.ids,
            links: self.links.update(
                position(self.ids, a),
                self.links_of(a).remove(position(self.links_of(a), b)),
            ),
        }
    }
}

/// A graph kept as adjacency lists. `D` is [`crate::marker::Directed`] or
/// [`crate::marker::Undirected`] and decides what linking two vertices means.
///
/// The graph holds identifiers only. Removing a vertex removes the edges that leave it; edges
/// that lead to it stay stored with their sources, and lead nowhere until the vertex is added
/// again.
pub struct AdjacencyGraph<I: View, D> {
    phantom: PhantomData<D>,
    keys: Vec<I>,
    links: Vec<Vec<I>>,
}

impl<I: View, D> View for AdjacencyGraph<I, D> {
    type V = Adjacency<I>;

    closed spec fn view(&self) -> Adjacency<I> {
        Adjacency { ids: self.keys@, links: Seq::new(self.links@.len(), |i: int| self.links@[i]@) }
    }
}

impl<I: View, D> AdjacencyGraph<I, D> {
    /// What every graph satisfies: its content is well shaped.
    #[verifier::type_invariant]
    pub open spec fn wf(&self) -> bool {
        self@.shaped()
    }

    /// A graph without vertices.
    pub fn new() -> (graph: Self)
        ensures
            graph@.ids.len() == 0,
            graph@.links.len() == 0,
    {
        AdjacencyGraph { phantom: PhantomData, keys: Vec::new(), links: Vec::new() }
    }
}

impl<I: View, D> Default for AdjacencyGraph<I, D> {
    fn default() -> (graph: Self)
        ensures
            graph@.ids.len() == 0,
            graph@.links.len() == 0,
    {
        AdjacencyGraph::new()
    }
}

impl<I: Index + Copy, D> AdjacencyGraph<I, D> {
    /// Adds the vertex `id`, with no edges, unless the graph holds it.
    fn add_vertex(&mut self, id: I) -> (r: bool)
        ensures
            r == !occurs(old(self)@.ids, id@),
            final(self)@ == if r {
                old(self)@.with_vertex(id)
            } else {
                old(self)@
            },
    {
        proof {
            use_type_invariant(&*self);
        }
        if holds(&self.keys, id) {
            return false;
        }
        let mut whole = AdjacencyGraph::new();
        std::mem::swap(self, &mut whole);
        let AdjacencyGraph { phantom, mut keys, mut links } = whole;
        keys.push(id);
        links.push(Vec::new());
        proof {
            let after = old(self)@.with_vertex(id);
            assert(Seq::new(links@.len(), |i: int| links@[i]@) =~= after.links);
            assert forall|i: int, j: int| 0 <= i < j < keys@.len() implies (#[trigger] keys@[i])@ != (
            #[trigger] keys@[j])@ by {
                if j == keys@.len() - 1 {
                    assert(keys@[i] == old(self)@.ids[i]);
                }
            }
        }
        *self = AdjacencyGraph { phantom, keys, links };
        true
    }

    /// Removes the vertex `id` and the edges that leave it.
    fn remove_vertex(&mut self, id: I) -> (r: bool)
        ensures
            r == occurs(old(self)@.ids, id@),
            final(self)@ == if r {
                old(self)@.without_vertex(id@)
            } else {
                old(self)@
            },
    {
        proof {
            use_type_invariant(&*self);
        }
        match find(&self.keys, id) {
            None => false,
            Some(at) => {
                let mut whole = AdjacencyGraph::new();
                std::mem::swap(self, &mut whole);
                let AdjacencyGraph { phantom, mut keys, mut links } = whole;
                keys.remove(at);
                links.remove(at);
                proof {
                    let before = old(self)@;
                    let after = before.without_vertex(id@);
                    assert(Seq::new(links@.len(), |i: int| links@[i]@) =~= after.links);
                    assert forall|i: int, j: int| 0 <= i < j < keys@.len() implies (
                    #[trigger] keys@[i])@ != (#[trigger] keys@[j])@ by {
                        let a = if i < at { i } else { i + 1 };
                        let b = if j < at { j } else { j + 1 };
                        assert(keys@[i] == before.ids[a] && keys@[j] == before.ids[b]);
                    }
                    assert forall|i: int| 0 <= i < after.links.len() implies distinct(
                        #[trigger] after.links[i],
                    ) by {
                        let a = if i < at { i } else { i + 1 };
                        assert(after.links[i] == before.links[a]);
                    }
                }
                *self = AdjacencyGraph { phantom, keys, links };
                true
            },
        }
    }

    /// Adds an edge from `a` to `b`. Both must be vertices of the graph, and the edge new.
    fn add_edge(&mut self, a: I, b: I) -> (r: bool)
        ensures
            r == old(self)@.may_link(a@, b@),
            final(self)@ == if r {
                old(self)@.with_link(a@, b)
            } else {
                old(self)@
            },
    {
        proof {
            use_type_invariant(&*self);
        }
        let has_b = holds(&self.keys, b);
        match find(&self.keys, a) {
            None => false,
            Some(at) => {
                assert(self@.links[at as int] == self.links@[at as int]@);
                if !has_b || holds(&self.links[at], b) {
                    return false;
                }
                let mut whole = AdjacencyGraph::new();
                std::mem::swap(self, &mut whole);
                let AdjacencyGraph { phantom, keys, mut links } = whole;
                links[at].insert(0, b);
                proof {
                    let before = old(self)@;
                    let after = before.with_link(a@, b);
                    assert(links@[at as int]@ =~= seq![b] + before.links[at as int]);
                    assert(Seq::new(links@.len(), |i: int| links@[i]@) =~= after.links);
                    assert forall|i: int| 0 <= i < after.links.len() implies distinct(
                        #[trigger] after.links[i],
                    ) by {
                        if i == at {
                            let row = after.links[i];
                            let was = before.links[i];
                            assert(distinct(was));
                            assert forall|x: int, y: int| 0 <= x < y < row.len() implies (
                            #[trigger] row[x])@ != (#[trigger] row[y])@ by {
                                assert(row[y] == was[y - 1]);
                                if x > 0 {
                                    assert(row[x] == was[x - 1]);
                                }
                            }
                        } else {
                            assert(after.links[i] == before.links[i]);
                        }
                    }
                }
                *self = AdjacencyGraph { phantom, keys, links };
                true
            },
        }
    }

    /// Removes the edge from `a` to `b`. Both must be vertices of the graph, and the edge there.
    fn remove_edge(&mut self, a: I, b: I) -> (r: bool)
        ensures
            r == old(self)@.may_unlink(a@, b@),
            final(self)@ == if r {
                old(self)@.without_link(a@, b@)
            } else {
                old(self)@
            },
    {
        proof {
            use_type_invariant(&*self);
        }
        let has_b = holds(&self.keys, b);
        match find(&self.keys, a) {
            None => false,
            Some(at) => {
                assert(self@.links[at as int] == self.links@[at as int]@);
                if !has_b {
                    return false;
                }
                match find(&self.links[at], b) {
                    None => false,
                    Some(place) => {
                        let mut whole = AdjacencyGraph::new();
                        std::mem::swap(self, &mut whole);
                        let AdjacencyGraph { phantom, keys, mut links } = whole;
                        links[at].remove(place);
                        proof {
                            let before = old(self)@;
                            let after = before.without_link(a@, b@);
                            let was = before.links[at as int];
                            assert(distinct(was));
                            assert(Seq::new(links@.len(), |i: int| links@[i]@) =~= after.links);
                            assert forall|i: int| 0 <= i < after.links.len() implies distinct(
                                #[trigger] after.links[i],
                            ) by {
                                if i == at {
                                    let row = after.links[i];
                                    assert forall|x: int, y: int|
                                        0 <= x < y < row.len() implies (#[trigger] row[x])@ != (
                                    #[trigger] row[y])@ by {
                                        let u = if x < place { x } else { x + 1 };
                                        let v = if y < place { y } else { y + 1 };
                                        assert(row[x] == was[u] && row[y] == was[v]);
                                    }
                                } else {
                                    assert(after.links[i] == before.links[i]);
                                }
                            }
                        }
                        *self = AdjacencyGraph { phantom, keys, links };
                        true
                    },
                }
            },
        }
    }

    /// Whether an edge leads from the vertex `a` to `b`.
    pub fn has_edge(&self, a: I, b: I) -> (r: bool)
        ensures
            r == self@.joins(a@, b@),
    {
        proof {
            use_type_invariant(self);
        }
        match find(&self.keys, a) {
            None => false,
            Some(at) => {
                assert(self@.links[at as int] == self.links@[at as int]@);
                holds(&self.links[at], b)
            },
        }
    }
}

impl<I: View> Adjacency<I> {
    /// The targets of the vertex at place `i` are the list at place `i`.
    pub proof fn lemma_links_at(self, i: int)
        requires
            self.shaped(),
            0 <= i < self.ids.len(),
        ensures
            occurs(self.ids, self.ids[i]@),
            self.links_of(self.ids[i]@) == self.links[i],
    {
        lemma_position(self.ids, i);
    }

    /// A new vertex joins the vertices and changes no edge.
    pub proof fn lemma_with_vertex(self, id: I)
        requires
            self.shaped(),
            !occurs(self.ids, id@),
        ensures
            self.with_vertex(id).shaped(),
            forall|k: I::V| #[trigger]
                occurs(self.with_vertex(id).ids, k) == (occurs(self.ids, k) || k == id@),
            forall|a: I::V, b: I::V| #[trigger]
                self.with_vertex(id).joins(a, b) == self.joins(a, b),
    {
        let after = self.with_vertex(id);
        assert forall|i: int, j: int| 0 <= i < j < after.ids.len() implies (#[trigger] after.ids[i])@
            != (#[trigger] after.ids[j])@ by {
            assert(after.ids[i] == self.ids[i]);
            if j < self.ids.len() {
                assert(after.ids[j] == self.ids[j]);
            }
        }
        assert forall|i: int| 0 <= i < after.links.len() implies distinct(
            #[trigger] after.links[i],
        ) by {
            if i < self.links.len() {
                assert(after.links[i] == self.links[i]);
            }
        }
        assert forall|k: I::V| #[trigger]
            occurs(after.ids, k) == (occurs(self.ids, k) || k == id@) by {
            if occurs(self.ids, k) {
                let i = position(self.ids, k);
                assert(after.ids[i]@ == k);
            }
            if k == id@ {
                assert(after.ids[self.ids.len() as int]@ == k);
            }
            if occurs(after.ids, k) {
                let i = position(after.ids, k);
                if i < self.ids.len() {
                    assert(self.ids[i]@ == k);
                }
            }
        }
        assert forall|a: I::V, b: I::V| #[trigger] after.joins(a, b) == self.joins(a, b) by {
            if occurs(self.ids, a) {
                let i = position(self.ids, a);
                self.lemma_links_at(i);
                assert(after.ids[i] == self.ids[i]);
                after.lemma_links_at(i);
            } else if a == id@ {
                after.lemma_links_at(self.ids.len() as int);
            }
        }
    }

    /// A removed vertex leaves the vertices, and the edges that left it are gone.
    pub proof fn lemma_without_vertex(self, id: I::V)
        requires
            self.shaped(),
            occurs(self.ids, id),
        ensures
            self.without_vertex(id).shaped(),
            forall|k: I::V| #[trigger]
                occurs(self.without_vertex(id).ids, k) == (occurs(self.ids, k) && k != id),
            forall|a: I::V, b: I::V| #[trigger]
                self.without_vertex(id).joins(a, b) == (self.joins(a, b) && a != id),
    {
        let after = self.without_vertex(id);
        let at = position(self.ids, id);
        assert forall|i: int| 0 <= i < after.ids.len() implies (#[trigger] after.ids[i]) == self.ids[if i
            < at {
            i
        } else {
            i + 1
        }] && after.links[i] == self.links[if i < at {
            i
        } else {
            i + 1
        }] && after.ids[i]@ != id by {
            let a = if i < at { i } else { i + 1 };
            if a < at {
                assert(self.ids[a]@ != self.ids[at]@);
            } else {
                assert(self.ids[at]@ != self.ids[a]@);
            }
        }
        assert forall|i: int, j: int| 0 <= i < j < after.ids.len() implies (#[trigger] after.ids[i])@
            != (#[trigger] after.ids[j])@ by {
            let a = if i < at { i } else { i + 1 };
            let b = if j < at { j } else { j + 1 };
            assert(self.ids[a]@ != self.ids[b]@);
        }
        assert forall|i: int| 0 <= i < after.links.len() implies distinct(
            #[trigger] after.links[i],
        ) by {
            assert(after.ids[i]@ != id);
        }
        assert forall|k: I::V| #[trigger]
            occurs(after.ids, k) == (occurs(self.ids, k) && k != id) by {
            if occurs(self.ids, k) && k != id {
                let i = position(self.ids, k);
                if i < at {
                    assert(after.ids[i]@ == k);
                } else {
                    assert(after.ids[i - 1]@ == k);
                }
            }
            if occurs(after.ids, k) {
                let i = position(after.ids, k);
                let a = if i < at { i } else { i + 1 };
                assert(self.ids[a]@ == k);
            }
        }
        assert forall|a: I::V, b: I::V| #[trigger]
            after.joins(a, b) == (self.joins(a, b) && a != id) by {
            if occurs(after.ids, a) {
                let i = position(after.ids, a);
                let was = if i < at { i } else { i + 1 };
                after.lemma_links_at(i);
                assert(after.ids[i] == self.ids[was]);
                self.lemma_links_at(was);
            }
        }
    }

    /// A new edge from `a` to `b` is the one edge that the graph gains.
    pub proof fn lemma_with_link(self, a: I::V, b: I)
        requires
            self.shaped(),
            occurs(self.ids, a),
        ensures
            forall|x: I::V, y: I::V| #[trigger]
                self.with_link(a, b).joins(x, y) == (self.joins(x, y) || (x == a && y == b@)),
    {
        let after = self.with_link(a, b);
        let at = position(self.ids, a);
        assert forall|x: I::V, y: I::V| #[trigger]
            after.joins(x, y) == (self.joins(x, y) || (x == a && y == b@)) by {
            if x == a {
                let row = seq![b] + self.links_of(a);
                assert(after.links_of(x) == row);
                lemma_occurs_add(seq![b], self.links_of(a), y);
                if y == b@ {
                    assert(seq![b][0]@ == y);
                }
            } else if occurs(self.ids, x) {
                assert(after.links_of(x) == self.links_of(x));
            }
        }
    }

    /// A removed edge from `a` to `b` is the one edge that the graph loses.
    pub proof fn lemma_without_link(self, a: I::V, b: I::V)
        requires
            self.shaped(),
            self.joins(a, b),
        ensures
            forall|x: I::V, y: I::V| #[trigger]
                self.without_link(a, b).joins(x, y) == (self.joins(x, y) && !(x == a && y == b)),
    {
        let after = self.without_link(a, b);
        let at = position(self.ids, a);
        let was = self.links_of(a);
        let place = position(was, b);
        let row = was.remove(place);
        assert(distinct(was));
        assert forall|x: I::V, y: I::V| #[trigger]
            after.joins(x, y) == (self.joins(x, y) && !(x == a && y == b)) by {
            if x == a {
                assert(after.links_of(x) == row);
                if occurs(row, y) {
                    let i = position(row, y);
                    let u = if i < place { i } else { i + 1 };
                    assert(row[i] == was[u]);
                    assert(was[u]@ == y);
                    if u < place {
                        assert(was[u]@ != was[place]@);
                    } else {
                        assert(was[place]@ != was[u]@);
                    }
                }
                if occurs(was, y) && y != b {
                    let u = position(was, y);
                    if u < place {
                        assert(row[u]@ == y);
                    } else {
                        assert(row[u - 1]@ == y);
                    }
                }
            } else if occurs(self.ids, x) {
                assert(after.links_of(x) == self.links_of(x));
            }
        }
    }
}

impl<I: Index + Copy> Construct<I> for AdjacencyGraph<I, Directed> {
    open spec fn has_vertex(&self, id: I::V) -> bool {
        occurs(self@.ids, id)
    }

    open spec fn has_link(&self, a: I::V, b: I::V) -> bool {
        self@.joins(a, b)
    }

    fn add(&mut self, id: I) -> (r: bool)
        ensures
            final(self)@ == if r {
                old(self)@.with_vertex(id)
            } else {
                old(self)@
            },
            old(self)@.sound() ==> final(self)@.sound(),
    {
        proof {
            use_type_invariant(&*self);
            if !occurs(self@.ids, id@) {
                self@.lemma_with_vertex(id);
            }
        }
        self.add_vertex(id)
    }

    /// Adds the edge from `a` to `b`, which then is the first that leaves `a`.
    fn link(&mut self, a: I, b: I) -> (r: bool)
        ensures
            r == old(self)@.may_link(a@, b@),
            final(self)@ == if r {
                old(self)@.with_link(a@, b)
            } else {
                old(self)@
            },
            old(self)@.sound() ==> final(self)@.sound(),
    {
        proof {
            use_type_invariant(&*self);
            if occurs(self@.ids, a@) {
                self@.lemma_with_link(a@, b);
            }
        }
        self.add_edge(a, b)
    }

    fn remove(&mut self, id: I) -> (r: bool)
        ensures
            final(self)@ == if r {
                old(self)@.without_vertex(id@)
            } else {
                old(self)@
            },
    {
        proof {
            use_type_invariant(&*self);
            if occurs(self@.ids, id@) {
                self@.lemma_without_vertex(id@);
            }
        }
        self.remove_vertex(id)
    }

    fn unlink(&mut self, a: I, b: I) -> (r: bool)
        ensures
            r == old(self)@.may_unlink(a@, b@),
            final(self)@ == if r {
                old(self)@.without_link(a@, b@)
            } else {
                old(self)@
            },
            old(self)@.sound() ==> final(self)@.sound(),
    {
        proof {
            use_type_invariant(&*self);
            if self@.joins(a@, b@) {
                self@.lemma_without_link(a@, b@);
            }
        }
        self.remove_edge(a, b)
    }
}

impl<I: Index + Copy> Construct<I> for AdjacencyGraph<I, Undirected> {
    open spec fn has_vertex(&self, id: I::V) -> bool {
        occurs(self@.ids, id)
    }

    open spec fn has_link(&self, a: I::V, b: I::V) -> bool {
        self@.joins(a, b)
    }

    fn add(&mut self, id: I) -> (r: bool)
        ensures
            final(self)@ == if r {
                old(self)@.with_vertex(id)
            } else {
                old(self)@
            },
            old(self)@.sound() ==> final(self)@.sound(),
            old(self)@.symmetric() ==> final(self)@.symmetric(),
    {
        proof {
            use_type_invariant(&*self);
            if !occurs(self@.ids, id@) {
                self@.lemma_with_vertex(id);
            }
        }
        self.add_vertex(id)
    }

    /// Adds the edge from `a` to `b` and then the edge from `b` to `a`.
    ///
    /// Where the first cannot be added, nothing changes. Where only the second cannot, the
    /// first stays: so it is for an edge from a vertex to itself, which is stored once, and the
    /// answer is `false`.
    fn link(&mut self, a: I, b: I) -> (r: bool)
        ensures
            r == (old(self)@.may_link(a@, b@) && a@ != b@ && !old(self)@.joins(b@, a@)),
            final(self)@ == if !old(self)@.may_link(a@, b@) {
                old(self)@
            } else if r {
                old(self)@.with_link(a@, b).with_link(b@, a)
            } else {
                old(self)@.with_link(a@, b)
            },
            old(self)@.sound() ==> final(self)@.sound(),
            old(self)@.symmetric() ==> final(self)@.symmetric(),
    {
        proof {
            use_type_invariant(&*self);
            if occurs(self@.ids, a@) {
                self@.lemma_with_link(a@, b);
            }
        }
        if !self.add_edge(a, b) {
            return false;
        }
        proof {
            use_type_invariant(&*self);
            self@.lemma_with_link(b@, a);
        }
        self.add_edge(b, a)
    }

    fn remove(&mut self, id: I) -> (r: bool)
        ensures
            final(self)@ == if r {
                old(self)@.without_vertex(id@)
            } else {
                old(self)@
            },
    {
        proof {
            use_type_invariant(&*self);
            if occurs(self@.ids, id@) {
                self@.lemma_without_vertex(id@);
            }
        }
        self.remove_vertex(id)
    }

    /// Removes the edge from `a` to `b` and then the edge from `b` to `a`.
    ///
    /// Where the first cannot be removed, nothing changes. Where only the second cannot, the
    /// first is gone all the same, and the answer is `false`.
    fn unlink(&mut self, a: I, b: I) -> (r: bool)
        ensures
            r == (old(self)@.may_unlink(a@, b@) && a@ != b@ && old(self)@.joins(b@, a@)),
            final(self)@ == if !old(self)@.may_unlink(a@, b@) {
                old(self)@
            } else if r {
                old(self)@.without_link(a@, b@).without_link(b@, a@)
            } else {
                old(self)@.without_link(a@, b@)
            },
            old(self)@.sound() ==> final(self)@.sound(),
            old(self)@.symmetric() ==> final(self)@.symmetric(),
    {
        proof {
            use_type_invariant(&*self);
            if self@.joins(a@, b@) {
                self@.lemma_without_link(a@, b@);
            }
        }
        if !self.remove_edge(a, b) {
            return false;
        }
        proof {
            use_type_invariant(&*self);
            if self@.joins(b@, a@) {
                self@.lemma_without_link(b@, a@);
            }
        }
        self.remove_edge(b, a)
    }
}

impl<I: View> Adjacency<I> {
    /// The stored edges of the first `n` vertices: vertex by vertex, each with its targets in
    /// their order.
    pub open spec fn arcs_upto(self, n: nat) -> Seq<(I, I)>
        decreases n,
    {
        if n == 0 {
            Seq::empty()
        } else {
            self.arcs_upto((n - 1) as nat) + fan(self.ids[n - 1], self.links[n - 1])
        }
    }

    /// All stored edges, as pairs of source and target.
    pub open spec fn arcs(self) -> Seq<(I, I)> {
        self.arcs_upto(self.ids.len())
    }

    /// The edges that leave `source`, but those that lead to `exclude`.
    pub open spec fn outbound(self, source: I, exclude: I::V) -> Seq<(I, I)> {
        fan(source, except(self.links_of(source@), exclude))
    }

    /// The stored edges of the first `n` vertices are those that join one of these vertices to
    /// one of its targets.
    pub proof fn lemma_arcs_upto(self, n: nat, a: I::V, b: I::V)
        requires
            self.shaped(),
            n <= self.ids.len(),
        ensures
            occurs(self.arcs_upto(n), (a, b)) <==> exists|i: int|
                0 <= i < n && (#[trigger] self.ids[i])@ == a && occurs(self.links[i], b),
        decreases n,
    {
        if n > 0 {
            let head = self.arcs_upto((n - 1) as nat);
            let last = fan(self.ids[n - 1], self.links[n - 1]);
            self.lemma_arcs_upto((n - 1) as nat, a, b);
            lemma_occurs_add(head, last, (a, b));
            if occurs(last, (a, b)) {
                let j = choose|j: int| 0 <= j < last.len() && (#[trigger] last[j])@ == (a, b);
                assert(self.links[n - 1][j]@ == b);
                assert(self.ids[n - 1]@ == a);
            }
            if exists|i: int|
                0 <= i < n && (#[trigger] self.ids[i])@ == a && occurs(self.links[i], b) {
                let i = choose|i: int|
                    0 <= i < n && (#[trigger] self.ids[i])@ == a && occurs(self.links[i], b);
                if i == n - 1 {
                    let j = choose|j: int|
                        0 <= j < self.links[i].len() && (#[trigger] self.links[i][j])@ == b;
                    assert(last[j]@ == (a, b));
                }
            }
        }
    }

    /// The stored edges are those that join a vertex to one of its targets.
    pub proof fn lemma_arcs(self, a: I::V, b: I::V)
        requires
            self.shaped(),
        ensures
            occurs(self.arcs(), (a, b)) <==> self.joins(a, b),
    {
        self.lemma_arcs_upto(self.ids.len(), a, b);
        if self.joins(a, b) {
            let i = position(self.ids, a);
            assert(self.ids[i]@ == a && occurs(self.links[i], b));
        }
        if occurs(self.arcs(), (a, b)) {
            let i = choose|i: int|
                0 <= i < self.ids.len() && (#[trigger] self.ids[i])@ == a && occurs(
                    self.links[i],
                    b,
                );
            self.lemma_links_at(i);
        }
    }

    /// The edges that leave `source` but those to `exclude` are the stored edges from `source`
    /// to another target.
    pub proof fn lemma_outbound(self, source: I, exclude: I::V, a: I::V, b: I::V)
        ensures
            occurs(self.outbound(source, exclude), (a, b)) <==> a == source@ && b != exclude
                && occurs(self.links_of(source@), b),
    {
        let kept = except(self.links_of(source@), exclude);
        let out = self.outbound(source, exclude);
        lemma_except(self.links_of(source@), exclude, b);
        if occurs(out, (a, b)) {
            let j = choose|j: int| 0 <= j < out.len() && (#[trigger] out[j])@ == (a, b);
            assert(kept[j]@ == b);
        }
        if a == source@ && occurs(kept, b) {
            let j = choose|j: int| 0 <= j < kept.len() && (#[trigger] kept[j])@ == b;
            assert(out[j]@ == (a, b));
        }
    }
}

/// The edges of `graph` that leave `source`, but those that lead to `exclude`; `None` where
/// `source` is no vertex of the graph.
pub fn outbound_edges<I: Index + Copy, D>(
    graph: &AdjacencyGraph<I, D>,
    source: I,
    exclude: I,
) -> (edges: Option<Vec<(I, I)>>)
    ensures
        edges.is_some() == occurs(graph@.ids, source@),
        edges.is_some() ==> edges.unwrap()@ == graph@.outbound(source, exclude@),
{
    proof {
        use_type_invariant(graph);
    }
    match find(&graph.keys, source) {
        None => None,
        Some(at) => {
            let targets = &graph.links[at];
            assert(targets@ == graph@.links_of(source@));
            let mut edges: Vec<(I, I)> = Vec::new();
            let mut j: usize = 0;
            while j < targets.len()
                invariant
                    j <= targets.len(),
                    edges@ == fan(source, except(targets@.take(j as int), exclude@)),
                decreases targets.len() - j,
            {
                let target = targets[j];
                proof {
                    assert(targets@.take(j + 1).drop_last() =~= targets@.take(j as int));
                    assert(targets@.take(j + 1).last() == target);
                }
                if !target.same(exclude) {
                    edges.push((source, target));
                    proof {
                        assert(edges@ =~= fan(source, except(targets@.take(j + 1), exclude@)));
                    }
                }
                j += 1;
            }
            proof {
                assert(targets@.take(targets@.len() as int) =~= targets@);
            }
            Some(edges)
        },
    }
}

impl<I: Index + Copy, D> AdjacencyGraph<I, D> {
    /// All stored edges, as pairs of source and target.
    fn stored_edges(&self) -> (edges: Vec<(I, I)>)
        ensures
            edges@ == self@.arcs(),
    {
        proof {
            use_type_invariant(self);
        }
        let mut edges: Vec<(I, I)> = Vec::new();
        let mut i: usize = 0;
        while i < self.keys.len()
            invariant
                i <= self.keys.len(),
                self.wf(),
                edges@ == self@.arcs_upto(i as nat),
            decreases self.keys.len() - i,
        {
            let source = self.keys[i];
            let targets = &self.links[i];
            assert(targets@ == self@.links[i as int]);
            let mut j: usize = 0;
            while j < targets.len()
                invariant
                    j <= targets.len(),
                    i < self.keys.len(),
                    edges@ == self@.arcs_upto(i as nat) + fan(source, targets@).take(j as int),
                decreases targets.len() - j,
            {
                edges.push((source, targets[j]));
                proof {
                    assert(fan(source, targets@).take(j + 1) =~= fan(source, targets@).take(
                        j as int,
                    ).push((source, targets@[j as int])));
                }
                j += 1;
            }
            proof {
                assert(fan(source, targets@).take(targets@.len() as int) =~= fan(source, targets@));
            }
            i += 1;
        }
        edges
    }

    /// The number of stored edges, or `usize::MAX` where that is less.
    fn stored_count(&self) -> (n: usize)
        ensures
            n == vstd::math::min(self@.arcs().len() as int, usize::MAX as int),
    {
        proof {
            use_type_invariant(self);
        }
        let mut n: usize = 0;
        let mut i: usize = 0;
        while i < self.keys.len()
            invariant
                i <= self.keys.len(),
                self.wf(),
                n == vstd::math::min(self@.arcs_upto(i as nat).len() as int, usize::MAX as int),
            decreases self.keys.len() - i,
        {
            assert(self.links@[i as int]@ == self@.links[i as int]);
            n = n.saturating_add(self.links[i].len());
            i += 1;
        }
        n
    }
}

/// The vertices of an adjacency graph: the neighbours of a vertex are the targets of its edges.
pub struct Vertices<'a, I: View, D> {
    pub graph: &'a AdjacencyGraph<I, D>,
}

impl<'a, I: Index + Copy, D> Topology for Vertices<'a, I, D> {
    type Item = I;

    open spec fn wf(&self) -> bool {
        self.graph.wf()
    }

    open spec fn items(&self) -> Seq<I> {
        self.graph@.ids
    }

    open spec fn neighbors(&self, item: I) -> Seq<I> {
        self.graph@.links_of(item@)
    }

    proof fn lemma_neighbors_of_same(&self, a: I, b: I) {
    }

    fn iter(&self) -> (all: Vec<I>) {
        copy_of(&self.graph.keys)
    }

    fn adjacent_to(&self, item: I) -> (adjacent: Option<Vec<I>>) {
        match find(&self.graph.keys, item) {
            None => None,
            Some(at) => {
                assert(self.graph.links@[at as int]@ == self.graph@.links[at as int]);
                Some(copy_of(&self.graph.links[at]))
            },
        }
    }

    fn contains(&self, item: I) -> (r: bool) {
        holds(&self.graph.keys, item)
    }
}

/// The edges of an adjacency graph.
pub struct Edges<'a, I: View, D> {
    pub graph: &'a AdjacencyGraph<I, D>,
}

/// Edges that lead one way are written source first. Next to an edge lie the edges that leave
/// its target, but the one that leads back to its source.
impl<'a, I: Index + Copy> Topology for Edges<'a, I, Directed> {
    type Item = (I, I);

    open spec fn wf(&self) -> bool {
        self.graph.wf()
    }

    open spec fn items(&self) -> Seq<(I, I)> {
        self.graph@.arcs()
    }

    open spec fn neighbors(&self, item: (I, I)) -> Seq<(I, I)> {
        self.graph@.outbound(item.1, item.0@)
    }

    proof fn lemma_neighbors_of_same(&self, a: (I, I), b: (I, I)) {
        assert forall|k: (I::V, I::V)|
            occurs(self.neighbors(a), k) <==> occurs(self.neighbors(b), k) by {
            self.graph@.lemma_outbound(a.1, a.0@, k.0, k.1);
            self.graph@.lemma_outbound(b.1, b.0@, k.0, k.1);
        }
    }

    fn iter(&self) -> (all: Vec<(I, I)>) {
        self.graph.stored_edges()
    }

    fn adjacent_to(&self, item: (I, I)) -> (adjacent: Option<Vec<(I, I)>>) {
        let (start, end) = item;
        proof {
            self.graph@.lemma_arcs(start@, end@);
        }
        if !self.graph.has_edge(start, end) {
            return None;
        }
        match outbound_edges(self.graph, end, start) {
            Some(edges) => Some(edges),
            None => {
                let edges: Vec<(I, I)> = Vec::new();
                assert(edges@ =~= self.neighbors(item));
                Some(edges)
            },
        }
    }

    fn contains(&self, item: (I, I)) -> (r: bool) {
        let (start, end) = item;
        proof {
            self.graph@.lemma_arcs(start@, end@);
        }
        self.graph.has_edge(start, end)
    }
}

/// Edges that lead both ways are written as unordered pairs, so that the two directions in
/// which such an edge is stored are one item. Next to an edge lie the other edges at its two
/// ends.
impl<'a, I: Index + Copy> Topology for Edges<'a, I, Undirected> {
    type Item = UnorderedPair<I>;

    open spec fn wf(&self) -> bool {
        self.graph.wf()
    }

    open spec fn items(&self) -> Seq<UnorderedPair<I>> {
        pairs(self.graph@.arcs())
    }

    open spec fn neighbors(&self, item: UnorderedPair<I>) -> Seq<UnorderedPair<I>> {
        pairs(self.graph@.outbound(item.0, item.1@)) + pairs(
            self.graph@.outbound(item.1, item.0@),
        )
    }

    proof fn lemma_neighbors_of_same(&self, a: UnorderedPair<I>, b: UnorderedPair<I>) {
        let m = self.graph@;
        lemma_same_pair(a, b);
        assert forall|k: Set<I::V>|
            occurs(self.neighbors(a), k) <==> occurs(self.neighbors(b), k) by {
            lemma_occurs_add(pairs(m.outbound(a.0, a.1@)), pairs(m.outbound(a.1, a.0@)), k);
            lemma_occurs_add(pairs(m.outbound(b.0, b.1@)), pairs(m.outbound(b.1, b.0@)), k);
            if a.0@ == b.0@ && a.1@ == b.1@ {
                lemma_outbound_same(m, a.0, b.0, a.1@, k);
                lemma_outbound_same(m, a.1, b.1, a.0@, k);
            } else {
                lemma_outbound_same(m, a.0, b.1, a.1@, k);
                lemma_outbound_same(m, a.1, b.0, a.0@, k);
            }
        }
    }

    fn iter(&self) -> (all: Vec<UnorderedPair<I>>) {
        let edges = self.graph.stored_edges();
        unordered(&edges)
    }

    fn adjacent_to(&self, item: UnorderedPair<I>) -> (adjacent: Option<Vec<UnorderedPair<I>>>) {
        if !self.contains(item) {
            return None;
        }
        let UnorderedPair(a, b) = item;
        let a_edges = match outbound_edges(self.graph, a, b) {
            Some(edges) => edges,
            None => Vec::new(),
        };
        let b_edges = match outbound_edges(self.graph, b, a) {
            Some(edges) => edges,
            None => Vec::new(),
        };
        proof {
            assert(a_edges@ =~= self.graph@.outbound(a, b@));
            assert(b_edges@ =~= self.graph@.outbound(b, a@));
        }
        let mut adjacent = unordered(&a_edges);
        let mut others = unordered(&b_edges);
        adjacent.append(&mut others);
        Some(adjacent)
    }

    fn contains(&self, item: UnorderedPair<I>) -> (r: bool) {
        let UnorderedPair(a, b) = item;
        proof {
            lemma_pairs(self.graph@.arcs(), a, b);
            self.graph@.lemma_arcs(a@, b@);
            self.graph@.lemma_arcs(b@, a@);
        }
        self.graph.has_edge(a, b) || self.graph.has_edge(b, a)
    }
}

/// The edges that leave a vertex, written as pairs, do not depend on how the vertex is written.
pub proof fn lemma_outbound_same<I: View>(
    m: Adjacency<I>,
    a: I,
    b: I,
    exclude: I::V,
    k: Set<I::V>,
)
    requires
        a@ == b@,
    ensures
        occurs(pairs(m.outbound(a, exclude)), k) <==> occurs(pairs(m.outbound(b, exclude)), k),
{
    lemma_fan_same(a, b, except(m.links_of(a@), exclude), k);
}

impl<'a, I: Index + Copy + 'a, D: 'a> VertexProvider<'a, I> for AdjacencyGraph<I, D> {
    type Vertices = Vertices<'a, I, D>;

    open spec fn census(&self) -> Seq<I> {
        self@.ids
    }

    fn order(&self) -> (n: usize) {
        self.keys.len()
    }

    fn vertices(&'a self) -> (t: Vertices<'a, I, D>) {
        proof {
            use_type_invariant(self);
        }
        Vertices { graph: self }
    }
}

impl<'a, I: Index + Copy + 'a> EdgeProvider<'a, I> for AdjacencyGraph<I, Directed> {
    type Edge = (I, I);

    type Edges = Edges<'a, I, Directed>;

    open spec fn edge_list(&self) -> Seq<(I, I)> {
        self@.arcs()
    }

    /// Each stored edge counts once. A count beyond `usize::MAX` is given as `usize::MAX`.
    open spec fn edge_count(&self) -> nat {
        vstd::math::min(self@.arcs().len() as int, usize::MAX as int) as nat
    }

    fn size(&self) -> (n: usize) {
        self.stored_count()
    }

    fn edges(&'a self) -> (t: Edges<'a, I, Directed>) {
        proof {
            use_type_invariant(self);
        }
        Edges { graph: self }
    }
}

impl<'a, I: Index + Copy + 'a> EdgeProvider<'a, I> for AdjacencyGraph<I, Undirected> {
    type Edge = UnorderedPair<I>;

    type Edges = Edges<'a, I, Undirected>;

    open spec fn edge_list(&self) -> Seq<UnorderedPair<I>> {
        pairs(self@.arcs())
    }

    /// An edge that leads both ways is stored twice and counts once: the size is half the
    /// number of stored edges.
    open spec fn edge_count(&self) -> nat {
        (vstd::math::min(self@.arcs().len() as int, usize::MAX as int) / 2) as nat
    }

    fn size(&self) -> (n: usize) {
        self.stored_count() / 2
    }

    fn edges(&'a self) -> (t: Edges<'a, I, Undirected>) {
        proof {
            use_type_invariant(self);
        }
        Edges { graph: self }
    }
}

impl<'a, I: Index + Copy, D> Vertices<'a, I, D> {
    /// Where every edge of the graph leads to a vertex, no step leads out of its vertices.
    pub proof fn lemma_closed(&self)
        requires
            self.wf(),
            self.graph@.sound(),
        ensures
            closed(self),
    {
        assert forall|a: I, k: I::V| #[trigger] leads(self, a, k) implies occurs(self.items(), k) by {
            assert(self.graph@.joins(a@, k));
        }
    }
}

impl<'a, I: Index + Copy> Edges<'a, I, Directed> {
    /// No step leads out of the edges of a graph: what lies next to an edge is a stored edge.
    pub proof fn lemma_closed(&self)
        requires
            self.wf(),
        ensures
            closed(self),
    {
        let m = self.graph@;
        assert forall|a: (I, I), k: (I::V, I::V)| #[trigger] leads(self, a, k) implies occurs(
            self.items(),
            k,
        ) by {
            m.lemma_outbound(a.1, a.0@, k.0, k.1);
            m.lemma_arcs(k.0, k.1);
            if !occurs(m.ids, a.1@) {
                assert(m.links_of(a.1@) =~= Seq::empty());
            }
        }
    }
}

impl<'a, I: Index + Copy> Edges<'a, I, Undirected> {
    /// No step leads out of the edges of a graph: what lies next to an edge is a stored edge.
    pub proof fn lemma_closed(&self)
        requires
            self.wf(),
        ensures
            closed(self),
    {
        let m = self.graph@;
        assert forall|a: UnorderedPair<I>, k: Set<I::V>| #[trigger] leads(self, a, k) implies occurs(
            self.items(),
            k,
        ) by {
            let left = pairs(m.outbound(a.0, a.1@));
            let right = pairs(m.outbound(a.1, a.0@));
            lemma_occurs_add(left, right, k);
            if occurs(left, k) {
                m.lemma_outbound_stored(a.0, a.1@, k);
            } else {
                m.lemma_outbound_stored(a.1, a.0@, k);
            }
        }
    }
}

impl<I: View> Adjacency<I> {
    /// An edge that leaves a vertex is a stored edge, also when written as a pair.
    pub proof fn lemma_outbound_stored(self, source: I, exclude: I::V, k: Set<I::V>)
        requires
            self.shaped(),
            occurs(pairs(self.outbound(source, exclude)), k),
        ensures
            occurs(pairs(self.arcs()), k),
    {
        let out = self.outbound(source, exclude);
        let wrapped = pairs(out);
        let i = choose|i: int| 0 <= i < wrapped.len() && (#[trigger] wrapped[i])@ == k;
        let arc = out[i];
        assert(wrapped[i] == UnorderedPair(arc.0, arc.1));
        assert(out[i]@ == (arc.0@, arc.1@));
        self.lemma_outbound(source, exclude, arc.0@, arc.1@);
        if !occurs(self.ids, source@) {
            assert(self.links_of(source@) =~= Seq::empty());
        }
        self.lemma_arcs(arc.0@, arc.1@);
        lemma_pairs(self.arcs(), arc.0, arc.1);
    }
}

} // verus!
