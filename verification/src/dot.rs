//! The graph as DOT text, one directed statement for each arc.

use crate::graph::Graph;
use vstd::prelude::*;
use vstd::string::StringExecFns;

verus! {

/// The statement for the arc from `a` to `b`: both labels in double quotes,
/// as they are, an arrow between them, on a line of its own.
pub open spec fn dot_line(a: Seq<char>, b: Seq<char>) -> Seq<char> {
    "    \""@ + a + "\" -> \""@ + b + "\";\n"@
}

/// The statements for `arcs`, in their order.
pub open spec fn dot_lines(arcs: Seq<(Seq<char>, Seq<char>)>) -> Seq<char>
    decreases arcs.len(),
{
    if arcs.len() == 0 {
        Seq::empty()
    } else {
        dot_lines(arcs.drop_last()) + dot_line(arcs.last().0, arcs.last().1)
    }
}

/// The DOT text of a directed graph named `G` with the statements for
/// `arcs` as its body.
pub open spec fn dot_text(arcs: Seq<(Seq<char>, Seq<char>)>) -> Seq<char> {
    "digraph G {\n"@ + dot_lines(arcs) + "}\n"@
}

/// One more arc adds its statement at the end.
pub proof fn lemma_dot_lines_push(arcs: Seq<(Seq<char>, Seq<char>)>, a: Seq<char>, b: Seq<char>)
    ensures
        dot_lines(arcs.push((a, b))) == dot_lines(arcs) + dot_line(a, b),
{
    assert(arcs.push((a, b)).drop_last() =~= arcs);
}

impl Graph {
    /// The first `upto` arcs that leave slot `i`, in the order of its
    /// neighbour list.
    pub(crate) open spec fn arcs_from(&self, i: int, upto: int) -> Seq<(Seq<char>, Seq<char>)>
        decreases upto,
    {
        if upto <= 0 {
            Seq::empty()
        } else {
            self.arcs_from(i, upto - 1).push(
                (self.label(i), self.label(self.neighbour(i, upto - 1))),
            )
        }
    }

    /// The arcs that leave the first `n` slots, slot by slot.
    pub(crate) open spec fn arcs_before(&self, n: int) -> Seq<(Seq<char>, Seq<char>)>
        decreases n,
    {
        if n <= 0 {
            Seq::empty()
        } else {
            self.arcs_before(n - 1) + self.arcs_from(n - 1, self.degree(n - 1))
        }
    }

    /// Every arc of the graph, as the pair of its labels: the nodes in the
    /// order in which they were added, the neighbours of each in the order
    /// in which they became its neighbours.
    pub closed spec fn arcs(&self) -> Seq<(Seq<char>, Seq<char>)> {
        self.arcs_before(self.size())
    }

    /// The graph as DOT text: a directed graph with one statement for each
    /// arc, so two for each edge between different nodes. A node without
    /// neighbours does not appear.
    pub fn to_dot(&self) -> (text: String)
        requires
            self.wf(),
        ensures
            text@ == dot_text(self.arcs()),
            self.arcs().no_duplicates(),
            forall|a: Seq<char>, b: Seq<char>| #[trigger]
                self.arcs().contains((a, b)) <==> self@.contains_key(a) && self@[a].contains(b),
    {
        proof {
            self.lemma_stored();
            self.lemma_arcs();
        }
        let mut dot = String::from_str("digraph G {\n");
        let mut i: usize = 0;
        while i < self.names.len()
            invariant
                self.stored(),
                i <= self.size(),
                dot@ == "digraph G {\n"@ + dot_lines(self.arcs_before(i as int)),
            decreases self.size() - i,
        {
            let row = &self.links[i];
            let mut k: usize = 0;
            while k < row.len()
                invariant
                    self.stored(),
                    i < self.size(),
                    row@ == self.links@[i as int]@,
                    k <= row@.len(),
                    dot@ == "digraph G {\n"@ + dot_lines(
                        self.arcs_before(i as int) + self.arcs_from(i as int, k as int),
                    ),
                decreases row@.len() - k,
            {
                let j: usize = row[k];
                proof {
                    assert(self.neighbour(i as int, k as int) == j);
                    let sofar = self.arcs_before(i as int) + self.arcs_from(i as int, k as int);
                    let a = self.label(i as int);
                    let b = self.label(j as int);
                    lemma_dot_lines_push(sofar, a, b);
                    assert(sofar.push((a, b)) =~= self.arcs_before(i as int) + self.arcs_from(
                        i as int,
                        k + 1,
                    ));
                }
                dot.append("    \"");
                dot.append(self.names[i].as_str());
                dot.append("\" -> \"");
                dot.append(self.names[j].as_str());
                dot.append("\";\n");
                proof {
                    assert(dot@ =~= "digraph G {\n"@ + (dot_lines(
                        self.arcs_before(i as int) + self.arcs_from(i as int, k as int),
                    ) + dot_line(self.label(i as int), self.label(j as int))));
                }
                k += 1;
            }
            proof {
                assert(self.arcs_before(i as int) + self.arcs_from(i as int, 0)
                    =~= self.arcs_before(i as int));
            }
            i += 1;
        }
        dot.append("}\n");
        proof {
            assert(dot@ =~= dot_text(self.arcs()));
        }
        dot
    }

    /// The arc that slot `i` has to its `m`-th neighbour.
    pub(crate) open spec fn arc(&self, i: int, m: int) -> (Seq<char>, Seq<char>) {
        (self.label(i), self.label(self.neighbour(i, m)))
    }

    /// Whether `x` is an arc that leaves one of the first `n` slots.
    pub(crate) open spec fn leaves_before(&self, n: int, x: (Seq<char>, Seq<char>)) -> bool {
        exists|i: int, m: int|
            0 <= i < n && 0 <= m < self.degree(i) && #[trigger] self.arc(i, m) == x
    }

    /// The arcs that leave a slot are those to its neighbours, in order.
    pub(crate) proof fn lemma_arcs_from(&self, i: int, upto: int)
        requires
            0 <= upto,
        ensures
            self.arcs_from(i, upto).len() == upto,
            forall|m: int| 0 <= m < upto ==> #[trigger] self.arcs_from(i, upto)[m] == self.arc(i, m),
        decreases upto,
    {
        if upto > 0 {
            self.lemma_arcs_from(i, upto - 1);
        }
    }

    /// The arcs that leave the first `n` slots: each comes from one of those
    /// slots, each arc of those slots is among them, and none comes twice.
    pub(crate) proof fn lemma_arcs_before(&self, n: int)
        requires
            self.stored(),
            0 <= n <= self.size(),
        ensures
            forall|p: int|
                0 <= p < self.arcs_before(n).len() ==> self.leaves_before(
                    n,
                    #[trigger] self.arcs_before(n)[p],
                ),
            forall|i: int, m: int|
                0 <= i < n && 0 <= m < self.degree(i) ==> self.arcs_before(n).contains(
                    #[trigger] self.arc(i, m),
                ),
            self.arcs_before(n).no_duplicates(),
        decreases n,
    {
        if n > 0 {
            let head = self.arcs_before(n - 1);
            let row = self.arcs_from(n - 1, self.degree(n - 1));
            let all = self.arcs_before(n);
            self.lemma_arcs_before(n - 1);
            self.lemma_arcs_from(n - 1, self.degree(n - 1));
            assert(all == head + row);
            assert forall|p: int| 0 <= p < all.len() implies self.leaves_before(
                n,
                #[trigger] all[p],
            ) by {
                if p < head.len() {
                    assert(self.leaves_before(n - 1, head[p]));
                    let (i, m) = choose|i: int, m: int|
                        0 <= i < n - 1 && 0 <= m < self.degree(i) && #[trigger] self.arc(i, m)
                            == head[p];
                    assert(self.arc(i, m) == all[p]);
                } else {
                    assert(self.arc(n - 1, p - head.len()) == all[p]);
                }
            }
            assert forall|i: int, m: int|
                0 <= i < n && 0 <= m < self.degree(i) implies all.contains(
                #[trigger] self.arc(i, m),
            ) by {
                if i < n - 1 {
                    let p = choose|p: int| 0 <= p < head.len() && head[p] == self.arc(i, m);
                    assert(all[p] == self.arc(i, m));
                } else {
                    assert(all[head.len() + m] == self.arc(i, m));
                }
            }
            assert forall|p: int, q: int| 0 <= p < q < all.len() implies all[p] != all[q] by {
                if q < head.len() {
                    assert(head[p] != head[q]);
                } else if p < head.len() {
                    assert(self.leaves_before(n - 1, head[p]));
                    let (i, m) = choose|i: int, m: int|
                        0 <= i < n - 1 && 0 <= m < self.degree(i) && #[trigger] self.arc(i, m)
                            == head[p];
                    assert(all[q] == self.arc(n - 1, q - head.len()));
                    assert(self.label(i) != self.label(n - 1));
                } else {
                    let a = p - head.len();
                    let b = q - head.len();
                    assert(all[p] == self.arc(n - 1, a));
                    assert(all[q] == self.arc(n - 1, b));
                    let x = self.neighbour(n - 1, a);
                    let y = self.neighbour(n - 1, b);
                    assert(self.links@[n - 1]@[a] != self.links@[n - 1]@[b]);
                    assert(x != y);
                    if x < y {
                        assert(self.label(x) != self.label(y));
                    } else {
                        assert(self.label(y) != self.label(x));
                    }
                }
            }
        }
    }

    /// The arcs are the adjacency of the view, each once: `(a, b)` is an arc
    /// exactly when `b` is a neighbour of the node `a`.
    pub proof fn lemma_arcs(&self)
        requires
            self.wf(),
        ensures
            self.arcs().no_duplicates(),
            forall|a: Seq<char>, b: Seq<char>| #[trigger]
                self.arcs().contains((a, b)) <==> self@.contains_key(a) && self@[a].contains(b),
    {
        self.lemma_stored();
        self.lemma_view();
        self.lemma_arcs_before(self.size());
        let all = self.arcs();
        assert forall|a: Seq<char>, b: Seq<char>| #[trigger]
            all.contains((a, b)) <==> self@.contains_key(a) && self@[a].contains(b) by {
            if all.contains((a, b)) {
                let p = choose|p: int| 0 <= p < all.len() && all[p] == (a, b);
                assert(self.leaves_before(self.size(), all[p]));
                let (i, m) = choose|i: int, m: int|
                    0 <= i < self.size() && 0 <= m < self.degree(i) && #[trigger] self.arc(i, m)
                        == all[p];
                let j = self.neighbour(i, m);
                self.lemma_slot_of(a, i);
                self.lemma_slot_of(b, j);
                assert(self.linked(i, j));
            }
            if self@.contains_key(a) && self@[a].contains(b) {
                let i = self.slot(a);
                let j = self.slot(b);
                let m = choose|m: int| 0 <= m < self.degree(i) && #[trigger] self.neighbour(i, m) == j;
                assert(self.arc(i, m) == (a, b));
            }
        }
    }
}

} // verus!
