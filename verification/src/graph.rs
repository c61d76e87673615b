//! The graph itself: its storage, its invariant, and how it grows.

use crate::model::{
    neighbours_are_nodes, symmetric, with_arc, with_edge, with_node, Adjacency,
};
use vstd::prelude::*;

verus! {

/// An undirected graph whose nodes are named by strings.
///
/// Every node has a slot, in the order in which the nodes were added.
/// `names` holds the label of each slot, and `links` the slots of its
/// neighbours, each neighbour once.
#[derive(Debug)]
pub struct Graph {
    pub(crate) names: Vec<String>,
    pub(crate) links: Vec<Vec<usize>>,
}

impl View for Graph {
    type V = Adjacency;

    /// From each node's label to the labels of its neighbours.
    closed spec fn view(&self) -> Adjacency {
        Map::new(
            |a: Seq<char>| self.has_label(a),
            |a: Seq<char>|
                Set::new(
                    |b: Seq<char>| self.has_label(b) && self.linked(self.slot(a), self.slot(b)),
                ),
        )
    }
}

impl Graph {
    /// The number of slots.
    pub(crate) open spec fn size(&self) -> int {
        self.names@.len() as int
    }

    /// The label of slot `i`.
    pub(crate) open spec fn label(&self, i: int) -> Seq<char> {
        self.names@[i]@
    }

    /// Whether some slot carries the label `a`.
    pub(crate) open spec fn has_label(&self, a: Seq<char>) -> bool {
        exists|i: int| 0 <= i < self.size() && self.label(i) == a
    }

    /// A slot that carries the label `a`, where there is one.
    pub(crate) open spec fn slot(&self, a: Seq<char>) -> int {
        choose|i: int| 0 <= i < self.size() && self.label(i) == a
    }

    /// How many neighbours slot `i` lists.
    pub(crate) open spec fn degree(&self, i: int) -> int {
        self.links@[i]@.len() as int
    }

    /// The `k`-th neighbour that slot `i` lists.
    pub(crate) open spec fn neighbour(&self, i: int, k: int) -> int {
        self.links@[i]@[k] as int
    }

    /// Whether slot `i` lists slot `j` among its neighbours.
    pub(crate) open spec fn linked(&self, i: int, j: int) -> bool {
        &&& 0 <= i < self.size()
        &&& 0 <= j < self.size()
        &&& exists|k: int| 0 <= k < self.degree(i) && #[trigger] self.neighbour(i, k) == j
    }

    /// The storage is consistent: one neighbour list per slot, no label on
    /// two slots, and every neighbour list names existing slots, each once.
    pub(crate) open spec fn stored(&self) -> bool {
        &&& self.links@.len() == self.names@.len()
        &&& forall|i: int, j: int|
            0 <= i < j < self.size() ==> self.label(i) != self.label(j)
        &&& forall|i: int, k: int|
            0 <= i < self.size() && 0 <= k < self.degree(i) ==> #[trigger] self.neighbour(i, k)
                < self.size()
        &&& forall|i: int| 0 <= i < self.size() ==> (#[trigger] self.links@[i])@.no_duplicates()
    }

    /// The invariant of a graph: consistent storage, and every link is held
    /// from both of its ends.
    pub closed spec fn wf(&self) -> bool {
        &&& self.stored()
        &&& forall|i: int, j: int| self.linked(i, j) ==> self.linked(j, i)
    }

    /// A well-formed graph has consistent storage.
    pub(crate) proof fn lemma_stored(&self)
        requires
            self.wf(),
        ensures
            self.stored(),
    {
    }

    /// What holds of every graph: a node is a neighbour of exactly those
    /// nodes that are its neighbours, every neighbour is itself a node, and
    /// there are finitely many nodes, so each has finitely many neighbours.
    pub proof fn lemma_shape(&self)
        requires
            self.wf(),
        ensures
            symmetric(self@),
            neighbours_are_nodes(self@),
            self@.dom().finite(),
            forall|a: Seq<char>| self@.contains_key(a) ==> (#[trigger] self@[a]).finite(),
    {
        self.lemma_view();
        assert forall|a: Seq<char>, b: Seq<char>|
            (self@.contains_key(a) && self@[a].contains(b)) implies (self@.contains_key(b)
            && self@[b].contains(a)) by {
            assert(self.linked(self.slot(b), self.slot(a)));
        }
        let labels = Seq::new(self.size() as nat, |i: int| self.label(i));
        assert forall|a: Seq<char>| self@.dom().contains(a) <==> labels.to_set().contains(a) by {
            if self.has_label(a) {
                assert(labels[self.slot(a)] == a);
            }
            if labels.contains(a) {
                let i = choose|i: int| 0 <= i < labels.len() && labels[i] == a;
                assert(self.label(i) == a);
            }
        }
        assert(self@.dom() =~= labels.to_set());
        vstd::seq_lib::seq_to_set_is_finite(labels);
        assert forall|a: Seq<char>| self@.contains_key(a) implies (#[trigger] self@[a]).finite() by {
            assert(self@[a].subset_of(self@.dom()));
            vstd::set_lib::lemma_set_subset_finite(self@.dom(), self@[a]);
        }
    }

    /// An empty graph: no nodes, no edges.
    pub fn new() -> (g: Graph)
        ensures
            g.wf(),
            g@ == Adjacency::empty(),
    {
        let g = Graph { names: Vec::new(), links: Vec::new() };
        assert(g@ =~= Adjacency::empty());
        g
    }

    /// A label names the one slot that carries it.
    pub(crate) proof fn lemma_slot_of(&self, a: Seq<char>, k: int)
        requires
            self.stored(),
            0 <= k < self.size(),
            self.label(k) == a,
        ensures
            self.has_label(a),
            self.slot(a) == k,
    {
        let j = self.slot(a);
        assert(0 <= j < self.size() && self.label(j) == a);
    }

    /// Graphs with the same labels on the first slots of one agree on them.
    pub(crate) proof fn lemma_slots_kept(&self, prev: Graph)
        requires
            prev.stored(),
            self.stored(),
            prev.size() <= self.size(),
            forall|k: int| 0 <= k < prev.size() ==> self.label(k) == prev.label(k),
        ensures
            forall|a: Seq<char>|
                prev.has_label(a) ==> self.has_label(a) && #[trigger] self.slot(a) == prev.slot(a),
            forall|a: Seq<char>|
                self.has_label(a) && #[trigger] self.slot(a) < prev.size() ==> prev.has_label(a),
    {
        assert forall|a: Seq<char>| prev.has_label(a) implies self.has_label(a)
            && #[trigger] self.slot(a) == prev.slot(a) by {
            let k = prev.slot(a);
            self.lemma_slot_of(a, k);
        }
        assert forall|a: Seq<char>|
            self.has_label(a) && #[trigger] self.slot(a) < prev.size() implies prev.has_label(
            a,
        ) by {
            let k = self.slot(a);
            assert(prev.label(k) == a);
        }
    }

    /// What the view holds, in terms of slots: the nodes are the labels of
    /// the slots, each label names one slot, and the neighbours of a node are
    /// the labels of the slots that its slot is linked to.
    pub(crate) proof fn lemma_view(&self)
        requires
            self.stored(),
        ensures
            forall|a: Seq<char>| #[trigger] self@.contains_key(a) <==> self.has_label(a),
            forall|i: int| 0 <= i < self.size() ==> self.slot(#[trigger] self.label(i)) == i,
            forall|a: Seq<char>, b: Seq<char>|
                self.has_label(a) ==> (#[trigger] self@[a].contains(b) <==> self.has_label(b)
                    && self.linked(self.slot(a), self.slot(b))),
    {
        assert forall|i: int| 0 <= i < self.size() implies self.slot(#[trigger] self.label(i))
            == i by {
            let a = self.label(i);
            let j = self.slot(a);
            assert(0 <= j < self.size() && self.label(j) == a);
        }
    }

    /// The slot that carries the label of `u`, if there is one.
    pub(crate) fn find(&self, u: &String) -> (r: Option<usize>)
        requires
            self.stored(),
        ensures
            match r {
                Some(i) => i < self.size() && self.label(i as int) == u@,
                None => !self.has_label(u@),
            },
    {
        let mut i: usize = 0;
        while i < self.names.len()
            invariant
                i <= self.size(),
                forall|j: int| 0 <= j < i ==> self.label(j) != u@,
            decreases self.size() - i,
        {
            if self.names[i] == *u {
                return Some(i);
            }
            i += 1;
        }
        None
    }

    /// The view after one more link, from slot `i` to slot `j`, over the
    /// same labels.
    pub(crate) proof fn lemma_view_linked(&self, prev: Graph, i: int, j: int)
        requires
            prev.stored(),
            self.stored(),
            self.names@ == prev.names@,
            0 <= i < prev.size(),
            0 <= j < prev.size(),
            forall|a: int, b: int| self.linked(a, b) <==> prev.linked(a, b) || (a == i && b == j),
        ensures
            self@ == with_arc(prev@, prev.label(i), prev.label(j)),
    {
        self.lemma_view();
        prev.lemma_view();
        self.lemma_slots_kept(prev);
        prev.lemma_slots_kept(*self);
        let u = prev.label(i);
        let v = prev.label(j);
        let g = with_arc(prev@, u, v);
        prev.lemma_slot_of(u, i);
        prev.lemma_slot_of(v, j);
        assert(g == prev@.insert(u, prev@[u].insert(v)));
        assert forall|a: Seq<char>| self@.contains_key(a) implies #[trigger] self@[a] == g[a] by {
            assert(prev.has_label(a));
            assert forall|b: Seq<char>| self@[a].contains(b) <==> g[a].contains(b) by {
                if a == u {
                    assert(g[a] == prev@[u].insert(v));
                    assert(g[a].contains(b) <==> prev@[a].contains(b) || b == v);
                } else {
                    assert(g[a] == prev@[a]);
                }
                if prev.has_label(b) {
                    assert(self.slot(b) == prev.slot(b));
                }
            }
            assert(self@[a] =~= g[a]);
        }
        assert(self@ =~= g);
    }

    /// The slot that carries the label of `u`, which is added as a node
    /// without neighbours if there is none yet.
    pub(crate) fn slot_for(&mut self, u: String) -> (i: usize)
        requires
            old(self).stored(),
        ensures
            final(self).stored(),
            i < final(self).size(),
            final(self).label(i as int) == u@,
            final(self)@ == with_node(old(self)@, u@),
            old(self).has_label(u@) ==> *final(self) == *old(self),
            final(self).size() >= old(self).size(),
            forall|k: int| 0 <= k < old(self).size() ==> final(self).label(k) == old(self).label(k),
            forall|a: int, b: int| final(self).linked(a, b) <==> old(self).linked(a, b),
    {
        match self.find(&u) {
            Some(i) => {
                proof {
                    self.lemma_view();
                }
                i
            },
            None => {
                let ghost prev = *self;
                let ghost label = u@;
                let i: usize = self.names.len();
                self.names.push(u);
                self.links.push(Vec::new());
                proof {
                    assert(self.names@ == prev.names@.push(u));
                    assert(self.links@ == prev.links@.push(self.links@[i as int]));
                    assert(self.degree(i as int) == 0);
                    assert forall|k: int| 0 <= k < prev.size() implies self.label(k) == prev.label(
                        k,
                    ) && self.links@[k] == prev.links@[k] by {}
                    assert forall|k: int, m: int| 0 <= k < m < self.size() implies self.label(k)
                        != self.label(m) by {
                        assert(self.label(k) == prev.label(k));
                        if m == i {
                            assert(self.label(m) == label);
                            assert(prev.label(k) != label);
                        } else {
                            assert(self.label(m) == prev.label(m));
                        }
                    }
                    assert forall|k: int, m: int|
                        0 <= k < self.size() && 0 <= m < self.degree(k) implies #[trigger] self.neighbour(
                        k,
                        m,
                    ) < self.size() by {
                        assert(self.neighbour(k, m) == prev.neighbour(k, m));
                    }
                    assert(self.stored());
                    assert forall|a: int, b: int| self.linked(a, b) <==> prev.linked(a, b) by {
                        if prev.linked(a, b) {
                            let k = choose|k: int|
                                0 <= k < prev.degree(a) && #[trigger] prev.neighbour(a, k) == b;
                            assert(self.neighbour(a, k) == b);
                        }
                        if self.linked(a, b) {
                            let k = choose|k: int|
                                0 <= k < self.degree(a) && #[trigger] self.neighbour(a, k) == b;
                            assert(prev.neighbour(a, k) == b);
                        }
                    }
                    self.lemma_view();
                    prev.lemma_view();
                    self.lemma_slots_kept(prev);
                    self.lemma_slot_of(label, i as int);
                    let g = with_node(prev@, label);
                    assert forall|a: Seq<char>| self.has_label(a) <==> prev.has_label(a) || a
                        == label by {
                        if self.has_label(a) && a != label {
                            assert(prev.label(self.slot(a)) == a);
                        }
                    }
                    assert forall|a: Seq<char>| self@.contains_key(a) implies #[trigger] self@[a]
                        == g[a] by {
                        assert forall|b: Seq<char>| self@[a].contains(b) <==> g[a].contains(b) by {
                            if a == label {
                                assert(!self.linked(i as int, self.slot(b)));
                            } else if b == label {
                                assert(!prev.linked(self.slot(a), i as int));
                            }
                        }
                        assert(self@[a] =~= g[a]);
                    }
                    assert(self@ =~= g);
                }
                i
            },
        }
    }

    /// Makes `u` a node. A node that is already there keeps its neighbours.
    pub fn add_node(&mut self, u: String)
        requires
            old(self).wf(),
        ensures
            final(self).wf(),
            final(self)@ == with_node(old(self)@, u@),
    {
        let _ = self.slot_for(u);
    }

    /// Lists slot `j` among the neighbours of slot `i`, unless it is there.
    pub(crate) fn add_directed_edge(&mut self, i: usize, j: usize)
        requires
            old(self).stored(),
            i < old(self).size(),
            j < old(self).size(),
        ensures
            final(self).stored(),
            final(self).names@ == old(self).names@,
            forall|a: int, b: int|
                final(self).linked(a, b) <==> old(self).linked(a, b) || (a == i && b == j),
    {
        let mut k: usize = 0;
        while k < self.links[i].len()
            invariant
                *self == *old(self),
                i < self.size(),
                self.stored(),
                k <= self.degree(i as int),
                forall|m: int| 0 <= m < k ==> self.neighbour(i as int, m) != j,
            decreases self.degree(i as int) - k,
        {
            if self.links[i][k] == j {
                proof {
                    assert(self.neighbour(i as int, k as int) == j);
                }
                return ;
            }
            k += 1;
        }
        let ghost prev = *self;
        self.links[i].push(j);
        proof {
            assert forall|a: int| 0 <= a < self.size() && a != i implies self.links@[a]
                == prev.links@[a] by {}
            assert(self.links@[i as int]@ == prev.links@[i as int]@.push(j));
            assert forall|a: int| 0 <= a < self.size() implies (#[trigger] self.links@[a])@.no_duplicates() by {
                if a == i {
                    let row = self.links@[a]@;
                    assert forall|m: int, n: int|
                        0 <= m < row.len() && 0 <= n < row.len() && m != n implies row[m]
                        != row[n] by {
                        if m < prev.degree(a) {
                            assert(prev.neighbour(a, m) == row[m]);
                        }
                        if n < prev.degree(a) {
                            assert(prev.neighbour(a, n) == row[n]);
                        }
                    }
                }
            }
            assert forall|a: int, m: int|
                0 <= a < self.size() && 0 <= m < self.degree(a) implies #[trigger] self.neighbour(
                a,
                m,
            ) < self.size() by {
                if a != i || m < prev.degree(a) {
                    assert(self.neighbour(a, m) == prev.neighbour(a, m));
                }
            }
            assert forall|a: int, b: int| 0 <= a < b < self.size() implies self.label(a)
                != self.label(b) by {
                assert(prev.label(a) != prev.label(b));
            }
            assert forall|a: int, b: int|
                self.linked(a, b) <==> prev.linked(a, b) || (a == i && b == j) by {
                if prev.linked(a, b) {
                    let m = choose|m: int|
                        0 <= m < prev.degree(a) && #[trigger] prev.neighbour(a, m) == b;
                    assert(self.neighbour(a, m) == b);
                }
                if a == i && b == j {
                    assert(self.neighbour(a, prev.degree(a)) == b);
                }
                if self.linked(a, b) && !(a == i && b == j) {
                    let m = choose|m: int|
                        0 <= m < self.degree(a) && #[trigger] self.neighbour(a, m) == b;
                    assert(prev.neighbour(a, m) == b);
                }
            }
        }
    }

    /// Joins `u` and `v` by an undirected edge: each becomes a node if it
    /// was none, and each becomes a neighbour of the other. With `u` equal
    /// to `v` the node becomes its own neighbour.
    pub fn add_edge(&mut self, u: String, v: String)
        requires
            old(self).wf(),
        ensures
            final(self).wf(),
            final(self)@ == with_edge(old(self)@, u@, v@),
    {
        let ghost a = u@;
        let ghost b = v@;
        let i: usize = self.slot_for(u);
        let j: usize = self.slot_for(v);
        let ghost both = *self;
        self.add_directed_edge(i, j);
        let ghost once = *self;
        self.add_directed_edge(j, i);
        proof {
            once.lemma_view_linked(both, i as int, j as int);
            self.lemma_view_linked(once, j as int, i as int);
            crate::model::lemma_edge_over_nodes(old(self)@, a, b);
        }
    }
}

} // verus!
