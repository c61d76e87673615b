//! The mathematics that the contracts of the graph are stated in.
//!
//! A graph is seen as a map from each node's label to the set of the labels
//! of its neighbours. Nothing here is executable.

use vstd::prelude::*;

verus! {

/// What a graph is to the contracts: a map from the label of each node to
/// the set of the labels of its neighbours.
pub type Adjacency = Map<Seq<char>, Set<Seq<char>>>;

/// `g` with the node `a`: a node that is already there keeps its
/// neighbours, a new one has none.
pub open spec fn with_node(g: Adjacency, a: Seq<char>) -> Adjacency {
    if g.contains_key(a) {
        g
    } else {
        g.insert(a, Set::empty())
    }
}

/// `g` with every label of `names` as a node: the nodes of `g` keep their
/// neighbours, the new ones have none.
pub open spec fn with_nodes(g: Adjacency, names: Seq<Seq<char>>) -> Adjacency {
    Map::new(
        |a: Seq<char>| g.contains_key(a) || names.contains(a),
        |a: Seq<char>|
            if g.contains_key(a) {
                g[a]
            } else {
                Set::empty()
            },
    )
}

/// `g` with `b` among the neighbours of `a`, which becomes a node if it was
/// none. Nothing is said of `b` itself.
pub open spec fn with_arc(g: Adjacency, a: Seq<char>, b: Seq<char>) -> Adjacency {
    with_node(g, a).insert(a, with_node(g, a)[a].insert(b))
}

/// `g` with the undirected edge between `a` and `b`: each becomes a node if
/// it was none, and each becomes a neighbour of the other.
pub open spec fn with_edge(g: Adjacency, a: Seq<char>, b: Seq<char>) -> Adjacency {
    with_arc(with_arc(g, a, b), b, a)
}

/// Whether every arc of `g` has its reverse: `b` is a neighbour of `a`
/// exactly when `a` is a neighbour of `b`.
pub open spec fn symmetric(g: Adjacency) -> bool {
    forall|a: Seq<char>, b: Seq<char>|
        (g.contains_key(a) && g[a].contains(b)) <==> (g.contains_key(b) && g[b].contains(a))
}

/// Whether every neighbour in `g` is itself a node of `g`.
pub open spec fn neighbours_are_nodes(g: Adjacency) -> bool {
    forall|a: Seq<char>, b: Seq<char>|
        g.contains_key(a) && #[trigger] g[a].contains(b) ==> g.contains_key(b)
}

/// Whether `p` goes from its `i`-th label to the next along an arc of `g`.
pub open spec fn hop(g: Adjacency, p: Seq<Seq<char>>, i: int) -> bool {
    g.contains_key(p[i]) && g[p[i]].contains(p[i + 1])
}

/// Whether `p` is a path in `g`: at least one label, each followed by one of
/// its neighbours. A single label is a path whether or not it is a node.
pub open spec fn is_path(g: Adjacency, p: Seq<Seq<char>>) -> bool {
    &&& p.len() >= 1
    &&& forall|i: int| 0 <= i < p.len() - 1 ==> #[trigger] hop(g, p, i)
}

/// Whether some path in `g` leads from `a` to `b` over exactly `n` edges.
pub open spec fn joined_in(g: Adjacency, a: Seq<char>, b: Seq<char>, n: nat) -> bool {
    exists|p: Seq<Seq<char>>|
        #![trigger is_path(g, p)]
        is_path(g, p) && p.len() == n + 1 && p.first() == a && p.last() == b
}

/// Whether `d` is the least number of edges on a path in `g` from `a` to
/// `b`.
pub open spec fn is_distance(g: Adjacency, a: Seq<char>, b: Seq<char>, d: nat) -> bool {
    &&& joined_in(g, a, b, d)
    &&& forall|n: nat| joined_in(g, a, b, n) ==> d <= n
}

/// The degrees of separation of `a` and `b` in `g`: the least number of
/// edges on a path between them, or `None` where no path joins them.
pub open spec fn separation(g: Adjacency, a: Seq<char>, b: Seq<char>) -> Option<nat> {
    if exists|n: nat| joined_in(g, a, b, n) {
        Some(choose|d: nat| is_distance(g, a, b, d))
    } else {
        None
    }
}

/// The separation of two labels is `Some(d)` exactly when `d` is the least
/// length of a path between them, and `None` exactly when there is no path.
pub proof fn lemma_separation(g: Adjacency, a: Seq<char>, b: Seq<char>)
    ensures
        forall|d: nat| separation(g, a, b) == Some(d) <==> is_distance(g, a, b, d),
        separation(g, a, b) is None <==> forall|n: nat| !joined_in(g, a, b, n),
{
    if exists|n: nat| joined_in(g, a, b, n) {
        let n = choose|n: nat| joined_in(g, a, b, n);
        lemma_least_length(g, a, b, n);
        let c = choose|d: nat| is_distance(g, a, b, d);
        assert forall|d: nat| is_distance(g, a, b, d) implies d == c by {}
    } else {
        assert forall|d: nat| !is_distance(g, a, b, d) by {}
    }
}

/// Where a path of `n` edges joins `a` and `b`, some length is the least.
proof fn lemma_least_length(g: Adjacency, a: Seq<char>, b: Seq<char>, n: nat)
    requires
        joined_in(g, a, b, n),
    ensures
        exists|d: nat| is_distance(g, a, b, d),
    decreases n,
{
    if exists|m: nat| m < n && joined_in(g, a, b, m) {
        let m = choose|m: nat| m < n && joined_in(g, a, b, m);
        lemma_least_length(g, a, b, m);
    } else {
        assert(is_distance(g, a, b, n));
    }
}

/// Adding an edge gives the same graph whether or not its two ends were
/// made nodes first.
pub proof fn lemma_edge_over_nodes(g: Adjacency, a: Seq<char>, b: Seq<char>)
    ensures
        with_edge(with_node(with_node(g, a), b), a, b) == with_edge(g, a, b),
{
    let h = with_edge(with_node(with_node(g, a), b), a, b);
    let k = with_edge(g, a, b);
    assert forall|x: Seq<char>| h.contains_key(x) implies #[trigger] h[x] == k[x] by {
        assert(h[x] =~= k[x]);
    }
    assert(h =~= k);
}

/// Adding a node makes it a node, and adding it again changes nothing: the
/// graph after two additions is the graph after one.
pub proof fn lemma_node_twice(g: Adjacency, a: Seq<char>)
    ensures
        with_node(g, a).contains_key(a),
        with_node(with_node(g, a), a) == with_node(g, a),
{
}

/// Adding several nodes is adding them one after the other, and adding none
/// changes nothing.
pub proof fn lemma_with_nodes_push(g: Adjacency, names: Seq<Seq<char>>, a: Seq<char>)
    ensures
        with_nodes(g, names.push(a)) == with_node(with_nodes(g, names), a),
        with_nodes(g, Seq::empty()) == g,
{
    let h = with_nodes(g, names.push(a));
    let k = with_node(with_nodes(g, names), a);
    assert forall|x: Seq<char>| h.contains_key(x) <==> k.contains_key(x) by {
        if names.push(a).contains(x) {
            let i = choose|i: int| 0 <= i < names.push(a).len() && names.push(a)[i] == x;
            if i < names.len() {
                assert(names[i] == x);
            }
        }
        if names.contains(x) {
            let i = choose|i: int| 0 <= i < names.len() && names[i] == x;
            assert(names.push(a)[i] == x);
        }
        if x == a {
            assert(names.push(a)[names.len() as int] == x);
        }
    }
    assert(h =~= k);
    assert(with_nodes(g, Seq::empty()) =~= g);
}

/// Adding a node leaves every other node, and every neighbour set that was
/// there, as it was.
pub proof fn lemma_node_keeps(g: Adjacency, a: Seq<char>, x: Seq<char>)
    ensures
        x != a ==> (with_node(g, a).contains_key(x) <==> g.contains_key(x)),
        g.contains_key(x) ==> with_node(g, a)[x] == g[x],
        !g.contains_key(a) ==> with_node(g, a)[a] == Set::<Seq<char>>::empty(),
{
}

/// After an edge between `a` and `b` is added, both are nodes and each is a
/// neighbour of the other. This holds for `a` equal to `b` too.
pub proof fn lemma_edge_joins(g: Adjacency, a: Seq<char>, b: Seq<char>)
    ensures
        with_edge(g, a, b).contains_key(a),
        with_edge(g, a, b).contains_key(b),
        with_edge(g, a, b)[a].contains(b),
        with_edge(g, a, b)[b].contains(a),
{
}

/// What an added edge changes, and what it leaves: the nodes are those of
/// before and the two ends, and `y` is a neighbour of `x` exactly when it was
/// one before or the pair is the new edge, in either direction.
pub proof fn lemma_edge_exact(g: Adjacency, a: Seq<char>, b: Seq<char>, x: Seq<char>, y: Seq<char>)
    ensures
        with_edge(g, a, b).contains_key(x) <==> g.contains_key(x) || x == a || x == b,
        with_edge(g, a, b).contains_key(x) && with_edge(g, a, b)[x].contains(y) <==> (g.contains_key(
            x,
        ) && g[x].contains(y)) || (x == a && y == b) || (x == b && y == a),
{
}

/// Adding an edge that is already there changes nothing.
pub proof fn lemma_edge_twice(g: Adjacency, a: Seq<char>, b: Seq<char>)
    ensures
        with_edge(with_edge(g, a, b), a, b) == with_edge(g, a, b),
{
    let h = with_edge(with_edge(g, a, b), a, b);
    let k = with_edge(g, a, b);
    assert forall|x: Seq<char>| h.contains_key(x) implies #[trigger] h[x] == k[x] by {
        assert(h[x] =~= k[x]);
    }
    assert(h =~= k);
}

/// An edge has no direction: it is the same edge from either end.
pub proof fn lemma_edge_either_way(g: Adjacency, a: Seq<char>, b: Seq<char>)
    ensures
        with_edge(g, a, b) == with_edge(g, b, a),
{
    let h = with_edge(g, a, b);
    let k = with_edge(g, b, a);
    assert forall|x: Seq<char>| h.contains_key(x) implies #[trigger] h[x] == k[x] by {
        assert(h[x] =~= k[x]);
    }
    assert(h =~= k);
}

/// Nodes and edges keep a graph symmetric and its neighbours among its
/// nodes.
pub proof fn lemma_growth_keeps_shape(g: Adjacency, a: Seq<char>, b: Seq<char>)
    requires
        symmetric(g),
        neighbours_are_nodes(g),
    ensures
        symmetric(with_node(g, a)),
        neighbours_are_nodes(with_node(g, a)),
        symmetric(with_edge(g, a, b)),
        neighbours_are_nodes(with_edge(g, a, b)),
{
    let h = with_edge(g, a, b);
    assert forall|x: Seq<char>, y: Seq<char>|
        (h.contains_key(x) && h[x].contains(y)) <==> (h.contains_key(y) && h[y].contains(x)) by {
        lemma_edge_exact(g, a, b, x, y);
        lemma_edge_exact(g, a, b, y, x);
    }
    assert forall|x: Seq<char>, y: Seq<char>|
        h.contains_key(x) && #[trigger] h[x].contains(y) implies h.contains_key(y) by {
        lemma_edge_exact(g, a, b, x, y);
        lemma_edge_exact(g, a, b, y, x);
    }
}

/// Every label is at distance zero from itself, in any graph, whether or not
/// it is a node.
pub proof fn lemma_separation_self(g: Adjacency, a: Seq<char>)
    ensures
        separation(g, a, a) == Some(0nat),
{
    let p = seq![a];
    assert(is_path(g, p));
    assert(joined_in(g, a, a, 0));
    assert(is_distance(g, a, a, 0));
    lemma_separation(g, a, a);
}

/// A label that is no node of a graph whose neighbours are all nodes is
/// joined to no other label, from either side.
pub proof fn lemma_separation_stranger(g: Adjacency, a: Seq<char>, b: Seq<char>)
    requires
        neighbours_are_nodes(g),
        a != b,
        !g.contains_key(a) || !g.contains_key(b),
    ensures
        separation(g, a, b) is None,
{
    assert forall|n: nat| !joined_in(g, a, b, n) by {
        if joined_in(g, a, b, n) {
            let p = choose|p: Seq<Seq<char>>|
                #![trigger is_path(g, p)]
                is_path(g, p) && p.len() == n + 1 && p.first() == a && p.last() == b;
            assert(hop(g, p, 0));
            assert(hop(g, p, p.len() - 2));
        }
    }
    lemma_separation(g, a, b);
}

/// Two different labels are at distance one exactly when one is a neighbour
/// of the other.
pub proof fn lemma_separation_neighbours(g: Adjacency, a: Seq<char>, b: Seq<char>)
    requires
        a != b,
    ensures
        separation(g, a, b) == Some(1nat) <==> g.contains_key(a) && g[a].contains(b),
{
    lemma_separation(g, a, b);
    if g.contains_key(a) && g[a].contains(b) {
        let p = seq![a, b];
        assert(is_path(g, p)) by {
            assert forall|i: int| 0 <= i < p.len() - 1 implies #[trigger] hop(g, p, i) by {}
        }
        assert(joined_in(g, a, b, 1));
        assert forall|n: nat| joined_in(g, a, b, n) implies 1 <= n by {
            if n == 0 {
                let q = choose|q: Seq<Seq<char>>|
                    #![trigger is_path(g, q)]
                    is_path(g, q) && q.len() == n + 1 && q.first() == a && q.last() == b;
            }
        }
        assert(is_distance(g, a, b, 1));
    }
    if separation(g, a, b) == Some(1nat) {
        assert(is_distance(g, a, b, 1));
        let p = choose|p: Seq<Seq<char>>|
            #![trigger is_path(g, p)]
            is_path(g, p) && p.len() == 2 && p.first() == a && p.last() == b;
        assert(hop(g, p, 0));
    }
}

/// A path of no edges joins a label to itself alone, and a path of `n + 1`
/// edges from `a` is an arc from `a` to a neighbour, followed by a path of
/// `n` edges from that neighbour.
pub proof fn lemma_joined_step(g: Adjacency, a: Seq<char>, b: Seq<char>, n: nat)
    ensures
        joined_in(g, a, b, 0) <==> a == b,
        joined_in(g, a, b, n + 1) <==> exists|m: Seq<char>|
            g.contains_key(a) && #[trigger] g[a].contains(m) && joined_in(g, m, b, n),
{
    if a == b {
        assert(is_path(g, seq![a]));
    }
    if joined_in(g, a, b, n + 1) {
        let p = choose|p: Seq<Seq<char>>|
            #![trigger is_path(g, p)]
            is_path(g, p) && p.len() == n + 2 && p.first() == a && p.last() == b;
        let q = p.drop_first();
        assert(hop(g, p, 0));
        assert forall|i: int| 0 <= i < q.len() - 1 implies #[trigger] hop(g, q, i) by {
            assert(hop(g, p, i + 1));
        }
        assert(is_path(g, q));
        assert(joined_in(g, p[1], b, n));
        assert(g[a].contains(p[1]));
    }
    if exists|m: Seq<char>|
        g.contains_key(a) && #[trigger] g[a].contains(m) && joined_in(g, m, b, n) {
        let m = choose|m: Seq<char>|
            g.contains_key(a) && #[trigger] g[a].contains(m) && joined_in(g, m, b, n);
        let q = choose|q: Seq<Seq<char>>|
            #![trigger is_path(g, q)]
            is_path(g, q) && q.len() == n + 1 && q.first() == m && q.last() == b;
        let p = seq![a] + q;
        assert forall|i: int| 0 <= i < p.len() - 1 implies #[trigger] hop(g, p, i) by {
            if i > 0 {
                assert(hop(g, q, i - 1));
            }
        }
        assert(is_path(g, p));
    }
}

/// In a symmetric graph a path read backwards is a path, so two labels are
/// as far apart in one direction as in the other.
pub proof fn lemma_separation_either_way(g: Adjacency, a: Seq<char>, b: Seq<char>)
    requires
        symmetric(g),
    ensures
        separation(g, a, b) == separation(g, b, a),
{
    assert forall|n: nat| joined_in(g, a, b, n) <==> joined_in(g, b, a, n) by {
        if joined_in(g, a, b, n) {
            lemma_path_backwards(g, a, b, n);
        }
        if joined_in(g, b, a, n) {
            lemma_path_backwards(g, b, a, n);
        }
    }
    lemma_separation(g, a, b);
    lemma_separation(g, b, a);
    match separation(g, a, b) {
        Some(d) => {
            assert(is_distance(g, a, b, d));
            assert(joined_in(g, b, a, d));
            assert(is_distance(g, b, a, d));
        },
        None => {},
    }
}

/// In a symmetric graph, a path from `a` to `b` gives one of the same length
/// from `b` to `a`.
proof fn lemma_path_backwards(g: Adjacency, a: Seq<char>, b: Seq<char>, n: nat)
    requires
        symmetric(g),
        joined_in(g, a, b, n),
    ensures
        joined_in(g, b, a, n),
{
    let p = choose|p: Seq<Seq<char>>|
        #![trigger is_path(g, p)]
        is_path(g, p) && p.len() == n + 1 && p.first() == a && p.last() == b;
    let q = Seq::new(p.len(), |i: int| p[p.len() - 1 - i]);
    assert forall|i: int| 0 <= i < q.len() - 1 implies #[trigger] hop(g, q, i) by {
        assert(hop(g, p, p.len() - 2 - i));
    }
    assert(is_path(g, q));
}

} // verus!
