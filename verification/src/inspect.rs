//! Read-only access to the nodes of a graph and to their neighbours.

use crate::graph::Graph;
use std::collections::HashSet;
use vstd::prelude::*;

verus! {

/// The labels that a set of strings holds.
pub open spec fn labels_of(set: HashSet<String>) -> Set<Seq<char>> {
    set@.map(|s: String| s@)
}

/// The labels that a list of strings holds, in its order.
pub open spec fn labels_in(items: Seq<String>) -> Seq<Seq<char>> {
    items.map_values(|s: String| s@)
}

/// Collects strings into a hash set, by `HashSet::from_iter` of the standard
/// library. Trusted: the set holds the labels of the given strings and no
/// others.
#[verifier::external_body]
fn collect_set(items: Vec<String>) -> (set: HashSet<String>)
    ensures
        labels_of(set) == labels_in(items@).to_set(),
{
    HashSet::from_iter(items)
}

impl Graph {
    /// A snapshot of the labels of all nodes.
    pub fn nodes(&self) -> (set: HashSet<String>)
        requires
            self.wf(),
        ensures
            labels_of(set) == self@.dom(),
    {
        let mut items: Vec<String> = Vec::new();
        let mut i: usize = 0;
        while i < self.names.len()
            invariant
                i <= self.size(),
                items@.len() == i,
                forall|k: int| 0 <= k < i ==> (#[trigger] items@[k])@ == self.label(k),
            decreases self.size() - i,
        {
            items.push(self.names[i].clone());
            i += 1;
        }
        proof {
            self.lemma_stored();
            self.lemma_view();
            let listed = labels_in(items@);
            assert forall|a: Seq<char>| listed.to_set().contains(a) <==> self@.dom().contains(
                a,
            ) by {
                if listed.contains(a) {
                    let k = choose|k: int| 0 <= k < listed.len() && listed[k] == a;
                    assert(items@[k]@ == self.label(k));
                }
                if self.has_label(a) {
                    let k = self.slot(a);
                    assert(listed[k] == a);
                }
            }
            assert(listed.to_set() =~= self@.dom());
        }
        collect_set(items)
    }

    /// A snapshot of the labels of the neighbours of `u`, or `None` where
    /// `u` is not a node.
    pub fn adj(&self, u: &String) -> (r: Option<HashSet<String>>)
        requires
            self.wf(),
        ensures
            match r {
                Some(set) => self@.contains_key(u@) && labels_of(set) == self@[u@],
                None => !self@.contains_key(u@),
            },
    {
        proof {
            self.lemma_stored();
            self.lemma_view();
        }
        match self.find(u) {
            None => None,
            Some(i) => {
                let row = &self.links[i];
                let mut items: Vec<String> = Vec::new();
                let mut k: usize = 0;
                while k < row.len()
                    invariant
                        self.stored(),
                        i < self.size(),
                        row@ == self.links@[i as int]@,
                        k <= row@.len(),
                        items@.len() == k,
                        forall|m: int|
                            0 <= m < k ==> (#[trigger] items@[m])@ == self.label(
                                self.neighbour(i as int, m),
                            ),
                    decreases row@.len() - k,
                {
                    let j: usize = row[k];
                    proof {
                        assert(self.neighbour(i as int, k as int) == j);
                    }
                    items.push(self.names[j].clone());
                    k += 1;
                }
                proof {
                    self.lemma_slot_of(u@, i as int);
                    let listed = labels_in(items@);
                    assert forall|b: Seq<char>| listed.to_set().contains(b) <==> self@[u@].contains(
                        b,
                    ) by {
                        if listed.contains(b) {
                            let m = choose|m: int| 0 <= m < listed.len() && listed[m] == b;
                            assert(items@[m]@ == self.label(self.neighbour(i as int, m)));
                            let j = self.neighbour(i as int, m);
                            self.lemma_slot_of(b, j);
                            assert(self.linked(i as int, j));
                        }
                        if self@[u@].contains(b) {
                            let j = self.slot(b);
                            let m = choose|m: int|
                                0 <= m < self.degree(i as int) && #[trigger] self.neighbour(
                                    i as int,
                                    m,
                                ) == j;
                            assert(listed[m] == b);
                        }
                    }
                    assert(listed.to_set() =~= self@[u@]);
                }
                Some(collect_set(items))
            },
        }
    }
}

} // verus!
