//! Breadth-first search over the slots of a graph.

use crate::graph::Graph;
use crate::model::{hop, is_distance, is_path, joined_in, lemma_separation, separation};
use std::collections::VecDeque;
use vstd::prelude::*;

verus! {

/// The ghost side of a search in progress.
///
/// `marks` and `queue` mirror the executable state. `depth` records, for each
/// marked slot, the distance at which it left the queue; `trail` holds, for
/// each queue entry, a route from the start that justifies its distance;
/// `level` is the distance of the entry that left the queue last.
pub(crate) struct Sweep {
    pub marks: Seq<bool>,
    pub queue: Seq<(usize, usize)>,
    pub depth: Map<int, nat>,
    pub trail: Seq<Seq<int>>,
    pub level: nat,
}

/// How many entries of `m` are set.
pub(crate) open spec fn marked(m: Seq<bool>) -> nat
    decreases m.len(),
{
    if m.len() == 0 {
        0
    } else {
        marked(m.drop_last()) + if m.last() {
            1nat
        } else {
            0nat
        }
    }
}

/// No more entries are set than there are entries.
pub(crate) proof fn lemma_marked_bound(m: Seq<bool>)
    ensures
        marked(m) <= m.len(),
    decreases m.len(),
{
    if m.len() > 0 {
        lemma_marked_bound(m.drop_last());
    }
}

/// Setting an entry that was not set raises the count by one.
pub(crate) proof fn lemma_marked_grows(m: Seq<bool>, i: int)
    requires
        0 <= i < m.len(),
        !m[i],
    ensures
        marked(m.update(i, true)) == marked(m) + 1,
    decreases m.len(),
{
    let m2 = m.update(i, true);
    if i == m.len() - 1 {
        assert(m2.drop_last() =~= m.drop_last());
    } else {
        assert(m2.drop_last() =~= m.drop_last().update(i, true));
        lemma_marked_grows(m.drop_last(), i);
    }
}

impl Graph {
    /// Whether `w` steps from its slot `i` to the next along a link.
    pub(crate) open spec fn route_step(&self, w: Seq<int>, i: int) -> bool {
        self.linked(w[i], w[i + 1])
    }

    /// Whether `w` is a walk over the slots: it starts on a slot, and each
    /// of its steps follows a link.
    pub(crate) open spec fn is_route(&self, w: Seq<int>) -> bool {
        &&& w.len() >= 1
        &&& 0 <= w[0] < self.size()
        &&& forall|i: int| 0 <= i < w.len() - 1 ==> #[trigger] self.route_step(w, i)
    }

    /// Whether `w` is a walk from slot `s` to slot `e`.
    pub(crate) open spec fn runs(&self, w: Seq<int>, s: int, e: int) -> bool {
        self.is_route(w) && w[0] == s && w.last() == e
    }

    /// Entry `i` of the queue names a slot, and its trail is a walk from `s`
    /// to that slot of the recorded length, within one step of the level.
    pub(crate) open spec fn entry_ok(&self, s: int, t: Sweep, i: int) -> bool {
        &&& t.queue[i].0 < self.size()
        &&& self.runs(t.trail[i], s, t.queue[i].0 as int)
        &&& t.trail[i].len() == t.queue[i].1 + 1
        &&& t.level <= t.queue[i].1 <= t.level + 1
        &&& t.queue[i].1 <= marked(t.marks)
    }

    /// Some queue entry names slot `x` with a distance of at most `bound`.
    pub(crate) open spec fn waiting(t: Sweep, x: int, bound: nat) -> bool {
        exists|i: int|
            0 <= i < t.queue.len() && (#[trigger] t.queue[i]).0 == x && t.queue[i].1 <= bound
    }

    /// The `k`-th neighbour of the marked slot `v` is accounted for: it is
    /// marked no deeper than one step below `v`, or it waits in the queue.
    pub(crate) open spec fn settled(&self, t: Sweep, v: int, k: int) -> bool {
        let x = self.neighbour(v, k);
        if t.marks[x] {
            t.depth[x] <= t.depth[v] + 1
        } else {
            Self::waiting(t, x, t.depth[v] + 1)
        }
    }

    /// Whether the search has already looked at the `k`-th neighbour of `v`,
    /// given the slot under expansion and the number of its neighbours done.
    pub(crate) open spec fn covered(cur: Option<(int, int)>, v: int, k: int) -> bool {
        match cur {
            Some((c, upto)) => v != c || k < upto,
            None => true,
        }
    }

    /// The invariant of the search from `s` for `e`.
    pub(crate) open spec fn sound(&self, s: int, e: int, t: Sweep, cur: Option<(int, int)>) -> bool {
        &&& 0 <= s < self.size()
        &&& 0 <= e < self.size()
        &&& t.marks.len() == self.size()
        &&& !t.marks[e]
        &&& t.trail.len() == t.queue.len()
        &&& forall|i: int| 0 <= i < t.queue.len() ==> #[trigger] self.entry_ok(s, t, i)
        &&& forall|i: int, j: int|
            0 <= i <= j < t.queue.len() ==> (#[trigger] t.queue[i]).1 <= (#[trigger] t.queue[j]).1
        &&& forall|v: int|
            0 <= v < self.size() && #[trigger] t.marks[v] ==> t.depth.contains_key(v) && t.depth[v]
                <= t.level
        &&& (t.marks[s] && t.depth[s] == 0) || (t.queue.len() > 0 && t.queue[0] == (s as usize, 0usize))
        &&& forall|v: int, k: int|
            0 <= v < self.size() && t.marks[v] && 0 <= k < self.degree(v) && Self::covered(
                cur,
                v,
                k,
            ) ==> #[trigger] self.settled(t, v, k)
    }

    /// Every walk from `s` ends on a slot that is marked no deeper than the
    /// walk is long, unless an entry that close still waits in the queue.
    pub(crate) proof fn lemma_walk_accounted(&self, s: int, e: int, t: Sweep, w: Seq<int>)
        requires
            self.stored(),
            self.sound(s, e, t, None),
            self.is_route(w),
            w[0] == s,
        ensures
            0 <= w.last() < self.size(),
            (t.marks[w.last()] && t.depth[w.last()] <= w.len() - 1) || (exists|i: int|
                0 <= i < t.queue.len() && (#[trigger] t.queue[i]).1 <= w.len() - 1),
        decreases w.len(),
    {
        if w.len() == 1 {
            if !t.marks[s] {
                assert(t.queue[0].1 <= w.len() - 1);
            }
        } else {
            let v = w.drop_last();
            assert(self.is_route(v)) by {
                assert forall|i: int| 0 <= i < v.len() - 1 implies #[trigger] self.route_step(
                    v,
                    i,
                ) by {
                    assert(self.route_step(w, i));
                }
            }
            self.lemma_walk_accounted(s, e, t, v);
            let y = v.last();
            let x = w.last();
            assert(self.route_step(w, w.len() - 2));
            assert(self.linked(y, x));
            if t.marks[y] && t.depth[y] <= v.len() - 1 {
                let k = choose|k: int| 0 <= k < self.degree(y) && #[trigger] self.neighbour(y, k) == x;
                assert(self.settled(t, y, k));
                if !t.marks[x] {
                    let i = choose|i: int|
                        0 <= i < t.queue.len() && (#[trigger] t.queue[i]).0 == x && t.queue[i].1
                            <= t.depth[y] + 1;
                    assert(t.queue[i].1 <= w.len() - 1);
                }
            } else {
                let i = choose|i: int|
                    0 <= i < t.queue.len() && (#[trigger] t.queue[i]).1 <= v.len() - 1;
                assert(t.queue[i].1 <= w.len() - 1);
            }
        }
    }

    /// The search is expanding the marked slot `cur`, which left the queue
    /// at distance `dist` along `route`, and has handled `upto` of its
    /// neighbours.
    pub(crate) open spec fn expanding(
        &self,
        s: int,
        e: int,
        t: Sweep,
        cur: int,
        dist: nat,
        upto: int,
        route: Seq<int>,
    ) -> bool {
        &&& self.sound(s, e, t, Some((cur, upto)))
        &&& 0 <= cur < self.size()
        &&& 0 <= upto <= self.degree(cur)
        &&& t.marks[cur]
        &&& t.depth[cur] == dist
        &&& t.level == dist
        &&& self.runs(route, s, cur)
        &&& route.len() == dist + 1
        &&& dist + 1 <= marked(t.marks)
    }

    /// The state after the front entry has left the queue unused.
    pub(crate) open spec fn after_discard(t: Sweep) -> Sweep {
        Sweep {
            queue: t.queue.subrange(1, t.queue.len() as int),
            trail: t.trail.subrange(1, t.trail.len() as int),
            ..t
        }
    }

    /// The state after the front entry has left the queue and its slot has
    /// been marked.
    pub(crate) open spec fn after_visit(t: Sweep) -> Sweep {
        Sweep {
            marks: t.marks.update(t.queue[0].0 as int, true),
            queue: t.queue.subrange(1, t.queue.len() as int),
            depth: t.depth.insert(t.queue[0].0 as int, t.queue[0].1 as nat),
            trail: t.trail.subrange(1, t.trail.len() as int),
            level: t.queue[0].1 as nat,
        }
    }

    /// The state after slot `x` has joined the queue at distance `d`, at the
    /// end of `route`.
    pub(crate) open spec fn after_push(t: Sweep, x: usize, d: usize, route: Seq<int>) -> Sweep {
        Sweep { queue: t.queue.push((x, d)), trail: t.trail.push(route.push(x as int)), ..t }
    }

    /// Dropping a front entry whose slot is already marked keeps the
    /// invariant.
    pub(crate) proof fn lemma_discard(&self, s: int, e: int, t: Sweep)
        requires
            self.stored(),
            self.sound(s, e, t, None),
            t.queue.len() > 0,
            t.marks[t.queue[0].0 as int],
        ensures
            self.sound(s, e, Self::after_discard(t), None),
    {
        let t2 = Self::after_discard(t);
        assert(self.entry_ok(s, t, 0));
        assert forall|i: int| 0 <= i < t2.queue.len() implies #[trigger] self.entry_ok(
            s,
            t2,
            i,
        ) by {
            assert(self.entry_ok(s, t, i + 1));
        }
        assert forall|v: int, k: int|
            0 <= v < self.size() && t2.marks[v] && 0 <= k < self.degree(v) implies #[trigger] self.settled(
            t2,
            v,
            k,
        ) by {
            assert(self.settled(t, v, k));
            let x = self.neighbour(v, k);
            if !t.marks[x] {
                let i = choose|i: int|
                    0 <= i < t.queue.len() && (#[trigger] t.queue[i]).0 == x && t.queue[i].1
                        <= t.depth[v] + 1;
                assert(t2.queue[i - 1] == t.queue[i]);
            }
        }
    }

    /// Marking the unmarked slot at the front of the queue starts its
    /// expansion.
    pub(crate) proof fn lemma_visit(&self, s: int, e: int, t: Sweep)
        requires
            self.stored(),
            self.sound(s, e, t, None),
            t.queue.len() > 0,
            !t.marks[t.queue[0].0 as int],
            t.queue[0].0 != e,
        ensures
            self.expanding(
                s,
                e,
                Self::after_visit(t),
                t.queue[0].0 as int,
                t.queue[0].1 as nat,
                0,
                t.trail[0],
            ),
            marked(Self::after_visit(t).marks) == marked(t.marks) + 1,
            t.queue[0].1 < self.size(),
    {
        let t2 = Self::after_visit(t);
        let cur = t.queue[0].0 as int;
        let dist = t.queue[0].1 as nat;
        assert(self.entry_ok(s, t, 0));
        lemma_marked_grows(t.marks, cur);
        lemma_marked_bound(t2.marks);
        assert forall|i: int| 0 <= i < t2.queue.len() implies #[trigger] self.entry_ok(
            s,
            t2,
            i,
        ) by {
            assert(self.entry_ok(s, t, i + 1));
            assert(t2.queue[i] == t.queue[i + 1]);
            assert(t.queue[0].1 <= t.queue[i + 1].1);
        }
        assert forall|i: int, j: int| 0 <= i <= j < t2.queue.len() implies (#[trigger] t2.queue[i]).1
            <= (#[trigger] t2.queue[j]).1 by {
            assert(t2.queue[i] == t.queue[i + 1]);
            assert(t2.queue[j] == t.queue[j + 1]);
        }
        assert forall|v: int, k: int|
            0 <= v < self.size() && t2.marks[v] && 0 <= k < self.degree(v) && Self::covered(
                Some((cur, 0int)),
                v,
                k,
            ) implies #[trigger] self.settled(t2, v, k) by {
            assert(t.marks[v]);
            assert(self.settled(t, v, k));
            let x = self.neighbour(v, k);
            if !t.marks[x] {
                let i = choose|i: int|
                    0 <= i < t.queue.len() && (#[trigger] t.queue[i]).0 == x && t.queue[i].1
                        <= t.depth[v] + 1;
                assert(t.queue[0].1 <= t.queue[i].1);
                if x != cur {
                    assert(t2.queue[i - 1] == t.queue[i]);
                }
            }
        }
    }

    /// Queueing an unmarked neighbour of the slot under expansion settles
    /// that neighbour.
    pub(crate) proof fn lemma_push(
        &self,
        s: int,
        e: int,
        t: Sweep,
        cur: int,
        dist: nat,
        k: int,
        route: Seq<int>,
    )
        requires
            self.stored(),
            self.expanding(s, e, t, cur, dist, k, route),
            k < self.degree(cur),
            !t.marks[self.neighbour(cur, k)],
            dist + 1 <= usize::MAX,
        ensures
            self.expanding(
                s,
                e,
                Self::after_push(t, self.neighbour(cur, k) as usize, (dist + 1) as usize, route),
                cur,
                dist,
                k + 1,
                route,
            ),
    {
        let x = self.neighbour(cur, k);
        let t2 = Self::after_push(t, x as usize, (dist + 1) as usize, route);
        let last = t.queue.len() as int;
        let longer = route.push(x);
        assert(self.is_route(longer)) by {
            assert forall|i: int| 0 <= i < longer.len() - 1 implies #[trigger] self.route_step(
                longer,
                i,
            ) by {
                if i < route.len() - 1 {
                    assert(self.route_step(route, i));
                }
            }
        }
        assert forall|i: int| 0 <= i < t2.queue.len() implies #[trigger] self.entry_ok(
            s,
            t2,
            i,
        ) by {
            if i < last {
                assert(self.entry_ok(s, t, i));
            }
        }
        assert forall|i: int, j: int| 0 <= i <= j < t2.queue.len() implies (#[trigger] t2.queue[i]).1
            <= (#[trigger] t2.queue[j]).1 by {
            if i < last {
                assert(self.entry_ok(s, t, i));
            }
            if j < last {
                assert(t.queue[i].1 <= t.queue[j].1);
            }
        }
        assert forall|v: int, j: int|
            0 <= v < self.size() && t2.marks[v] && 0 <= j < self.degree(v) && Self::covered(
                Some((cur, k + 1)),
                v,
                j,
            ) implies #[trigger] self.settled(t2, v, j) by {
            let y = self.neighbour(v, j);
            if v == cur && j == k {
                assert(t2.queue[last].0 == y);
            } else {
                assert(self.settled(t, v, j));
                if !t.marks[y] {
                    let i = choose|i: int|
                        0 <= i < t.queue.len() && (#[trigger] t.queue[i]).0 == y && t.queue[i].1
                            <= t.depth[v] + 1;
                    assert(t2.queue[i] == t.queue[i]);
                }
            }
        }
    }

    /// A neighbour that is already marked needs no queue entry.
    pub(crate) proof fn lemma_skip(
        &self,
        s: int,
        e: int,
        t: Sweep,
        cur: int,
        dist: nat,
        k: int,
        route: Seq<int>,
    )
        requires
            self.stored(),
            self.expanding(s, e, t, cur, dist, k, route),
            k < self.degree(cur),
            t.marks[self.neighbour(cur, k)],
        ensures
            self.expanding(s, e, t, cur, dist, k + 1, route),
    {
        assert forall|v: int, j: int|
            0 <= v < self.size() && t.marks[v] && 0 <= j < self.degree(v) && Self::covered(
                Some((cur, k + 1)),
                v,
                j,
            ) implies #[trigger] self.settled(t, v, j) by {
            if !(v == cur && j == k) {
                assert(Self::covered(Some((cur, k)), v, j));
            }
        }
    }

    /// Once every neighbour of the slot under expansion is handled, the
    /// invariant holds without exception.
    pub(crate) proof fn lemma_expanded(
        &self,
        s: int,
        e: int,
        t: Sweep,
        cur: int,
        dist: nat,
        route: Seq<int>,
    )
        requires
            self.expanding(s, e, t, cur, dist, self.degree(cur), route),
        ensures
            self.sound(s, e, t, None),
    {
        assert forall|v: int, j: int|
            0 <= v < self.size() && t.marks[v] && 0 <= j < self.degree(v) implies #[trigger] self.settled(
            t,
            v,
            j,
        ) by {
            assert(Self::covered(Some((cur, self.degree(cur))), v, j));
        }
    }

    /// Breadth-first search from slot `s` for the other slot `e`: the number
    /// of links on a shortest walk between them, if there is any walk.
    pub(crate) fn search(&self, s: usize, e: usize) -> (r: Option<usize>)
        requires
            self.stored(),
            s < self.size(),
            e < self.size(),
            s != e,
        ensures
            match r {
                Some(d) => {
                    &&& exists|w: Seq<int>| self.runs(w, s as int, e as int) && w.len() == d + 1
                    &&& forall|w: Seq<int>| self.runs(w, s as int, e as int) ==> d + 1 <= w.len()
                },
                None => forall|w: Seq<int>| !self.runs(w, s as int, e as int),
            },
    {
        let n: usize = self.names.len();
        let mut marks: Vec<bool> = Vec::new();
        while marks.len() < n
            invariant
                marks@.len() <= n,
                forall|i: int| 0 <= i < marks@.len() ==> !marks@[i],
            decreases n - marks@.len(),
        {
            marks.push(false);
        }
        let mut queue: VecDeque<(usize, usize)> = VecDeque::new();
        queue.push_back((s, 0));
        let ghost mut depth: Map<int, nat> = Map::empty();
        let ghost mut trail: Seq<Seq<int>> = seq![seq![s as int]];
        let ghost mut level: nat = 0;
        proof {
            let t = Sweep { marks: marks@, queue: queue@, depth, trail, level };
            assert(self.is_route(trail[0]));
            assert(self.entry_ok(s as int, t, 0));
        }
        loop
            invariant
                self.stored(),
                n == self.size(),
                self.sound(
                    s as int,
                    e as int,
                    (Sweep { marks: marks@, queue: queue@, depth, trail, level }),
                    None,
                ),
            decreases n - marked(marks@), queue@.len(),
        {
            let ghost t = Sweep { marks: marks@, queue: queue@, depth, trail, level };
            match queue.pop_front() {
                None => {
                    proof {
                        assert forall|w: Seq<int>| !self.runs(w, s as int, e as int) by {
                            if self.runs(w, s as int, e as int) {
                                self.lemma_walk_accounted(s as int, e as int, t, w);
                            }
                        }
                    }
                    return None;
                },
                Some((cur, dist)) => {
                    proof {
                        assert(self.entry_ok(s as int, t, 0));
                    }
                    if cur == e {
                        proof {
                            assert(self.runs(t.trail[0], s as int, e as int));
                            assert forall|w: Seq<int>|
                                self.runs(w, s as int, e as int) implies dist + 1 <= w.len() by {
                                self.lemma_walk_accounted(s as int, e as int, t, w);
                                let i = choose|i: int|
                                    0 <= i < t.queue.len() && (#[trigger] t.queue[i]).1 <= w.len()
                                        - 1;
                                assert(t.queue[0].1 <= t.queue[i].1);
                            }
                        }
                        return Some(dist);
                    }
                    if marks[cur] {
                        proof {
                            self.lemma_discard(s as int, e as int, t);
                            trail = trail.subrange(1, trail.len() as int);
                        }
                    } else {
                        marks.set(cur, true);
                        let ghost route = trail[0];
                        proof {
                            self.lemma_visit(s as int, e as int, t);
                            depth = depth.insert(cur as int, dist as nat);
                            trail = trail.subrange(1, trail.len() as int);
                            level = dist as nat;
                        }
                        let row = &self.links[cur];
                        let mut k: usize = 0;
                        while k < row.len()
                            invariant
                                self.stored(),
                                n == self.size(),
                                cur < n,
                                dist < n,
                                row@ == self.links@[cur as int]@,
                                marks@.len() == n,
                                marked(marks@) == marked(t.marks) + 1,
                                self.expanding(
                                    s as int,
                                    e as int,
                                    (Sweep { marks: marks@, queue: queue@, depth, trail, level }),
                                    cur as int,
                                    dist as nat,
                                    k as int,
                                    route,
                                ),
                            decreases row@.len() - k,
                        {
                            let ghost u = Sweep { marks: marks@, queue: queue@, depth, trail, level };
                            let next: usize = row[k];
                            proof {
                                assert(self.neighbour(cur as int, k as int) == next);
                            }
                            if !marks[next] {
                                queue.push_back((next, dist + 1));
                                proof {
                                    self.lemma_push(
                                        s as int,
                                        e as int,
                                        u,
                                        cur as int,
                                        dist as nat,
                                        k as int,
                                        route,
                                    );
                                    trail = trail.push(route.push(next as int));
                                }
                            } else {
                                proof {
                                    self.lemma_skip(
                                        s as int,
                                        e as int,
                                        u,
                                        cur as int,
                                        dist as nat,
                                        k as int,
                                        route,
                                    );
                                }
                            }
                            k += 1;
                        }
                        proof {
                            self.lemma_expanded(
                                s as int,
                                e as int,
                                (Sweep { marks: marks@, queue: queue@, depth, trail, level }),
                                cur as int,
                                dist as nat,
                                route,
                            );
                            lemma_marked_bound(marks@);
                        }
                    }
                },
            }
        }
    }

    /// The labels along a walk over the slots.
    pub(crate) open spec fn labels_along(&self, w: Seq<int>) -> Seq<Seq<char>> {
        Seq::new(w.len(), |i: int| self.label(w[i]))
    }

    /// The slots along a path of labels.
    pub(crate) open spec fn slots_along(&self, p: Seq<Seq<char>>) -> Seq<int> {
        Seq::new(p.len(), |i: int| self.slot(p[i]))
    }

    /// The labels along a walk over the slots form a path of the view.
    pub(crate) proof fn lemma_route_is_path(&self, w: Seq<int>)
        requires
            self.stored(),
            self.is_route(w),
        ensures
            is_path(self@, self.labels_along(w)),
            forall|i: int| 0 <= i < w.len() ==> 0 <= #[trigger] w[i] < self.size(),
    {
        self.lemma_view();
        let p = self.labels_along(w);
        assert forall|i: int| 0 <= i < w.len() implies 0 <= #[trigger] w[i] < self.size() by {
            if i > 0 {
                assert(self.route_step(w, i - 1));
            }
        }
        assert forall|i: int| 0 <= i < p.len() - 1 implies #[trigger] hop(self@, p, i) by {
            assert(self.route_step(w, i));
            assert(self.has_label(p[i]));
            assert(self.has_label(p[i + 1]));
        }
    }

    /// A path of the view that ends on a node runs over slots that form a
    /// walk.
    pub(crate) proof fn lemma_path_is_route(&self, p: Seq<Seq<char>>)
        requires
            self.stored(),
            is_path(self@, p),
            self.has_label(p.first()),
        ensures
            self.is_route(self.slots_along(p)),
    {
        self.lemma_view();
        let w = self.slots_along(p);
        assert forall|i: int| 0 <= i < w.len() - 1 implies #[trigger] self.route_step(w, i) by {
            assert(hop(self@, p, i));
        }
    }

    /// The degrees of separation between `start` and `end`: the least number
    /// of edges on a path from one to the other, or `None` where no path
    /// joins them.
    ///
    /// A label is at distance zero from itself, whether or not it names a
    /// node. A label that names no node is joined to no other label.
    pub fn degrees_of_separation(&self, start: &String, end: &String) -> (r: Option<usize>)
        requires
            self.wf(),
        ensures
            match r {
                Some(d) => separation(self@, start@, end@) == Some(d as nat),
                None => separation(self@, start@, end@) is None,
            },
            start@ == end@ ==> r == Some(0usize),
            r is None <==> forall|n: nat| !joined_in(self@, start@, end@, n),
    {
        proof {
            self.lemma_stored();
            self.lemma_view();
            lemma_separation(self@, start@, end@);
        }
        if *start == *end {
            proof {
                let p = seq![start@];
                assert(is_path(self@, p));
                assert(joined_in(self@, start@, end@, 0));
                assert(is_distance(self@, start@, end@, 0));
            }
            return Some(0);
        }
        let s: usize = match self.find(start) {
            Some(i) => i,
            None => {
                proof {
                    assert forall|n: nat| !joined_in(self@, start@, end@, n) by {
                        if joined_in(self@, start@, end@, n) {
                            let p = choose|p: Seq<Seq<char>>|
                                #![trigger is_path(self@, p)]
                                is_path(self@, p) && p.len() == n + 1 && p.first() == start@
                                    && p.last() == end@;
                            assert(hop(self@, p, 0));
                        }
                    }
                }
                return None;
            },
        };
        let e: usize = match self.find(end) {
            Some(i) => i,
            None => {
                proof {
                    assert forall|n: nat| !joined_in(self@, start@, end@, n) by {
                        if joined_in(self@, start@, end@, n) {
                            let p = choose|p: Seq<Seq<char>>|
                                #![trigger is_path(self@, p)]
                                is_path(self@, p) && p.len() == n + 1 && p.first() == start@
                                    && p.last() == end@;
                            assert(hop(self@, p, p.len() - 2));
                        }
                    }
                }
                return None;
            },
        };
        let r = self.search(s, e);
        proof {
            assert forall|n: nat| joined_in(self@, start@, end@, n) implies exists|w: Seq<int>|
                self.runs(w, s as int, e as int) && w.len() == n + 1 by {
                let p = choose|p: Seq<Seq<char>>|
                    #![trigger is_path(self@, p)]
                    is_path(self@, p) && p.len() == n + 1 && p.first() == start@ && p.last()
                        == end@;
                self.lemma_path_is_route(p);
                assert(self.runs(self.slots_along(p), s as int, e as int));
            }
            assert forall|w: Seq<int>| self.runs(w, s as int, e as int) implies joined_in(
                self@,
                start@,
                end@,
                (w.len() - 1) as nat,
            ) by {
                self.lemma_route_is_path(w);
                assert(is_path(self@, self.labels_along(w)));
            }
            match r {
                Some(d) => {
                    let w = choose|w: Seq<int>|
                        self.runs(w, s as int, e as int) && w.len() == d + 1;
                    assert(joined_in(self@, start@, end@, d as nat));
                    assert forall|n: nat| joined_in(self@, start@, end@, n) implies d <= n by {
                        let v = choose|v: Seq<int>|
                            self.runs(v, s as int, e as int) && v.len() == n + 1;
                    }
                    assert(is_distance(self@, start@, end@, d as nat));
                },
                None => {},
            }
        }
        r
    }
}

} // verus!
