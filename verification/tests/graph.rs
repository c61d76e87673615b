use std::collections::HashSet;

use social_graph::Graph;

fn s(text: &str) -> String {
    text.to_string()
}

fn set_of(labels: &[&str]) -> HashSet<String> {
    labels.iter().map(|l| l.to_string()).collect()
}

#[test]
fn empty_graph() {
    let g = Graph::new();
    assert_eq!(g.nodes(), HashSet::new());
}

#[test]
fn empty_graph_has_no_neighbours_to_show() {
    let g = Graph::new();
    assert_eq!(g.adj(&s("anyone")), None);
    assert_eq!(g.degrees_of_separation(&s("a"), &s("b")), None);
}

#[test]
fn add_node_twice_keeps_one_node() {
    let mut g = Graph::new();
    g.add_node(s("funny"));
    g.add_node(s("funny"));
    let nodes = g.nodes();
    assert_eq!(nodes.len(), 1);
    assert!(nodes.contains("funny"));
    assert_eq!(g.adj(&s("funny")), Some(HashSet::new()));
}

#[test]
fn add_node_again_keeps_its_neighbours() {
    let mut g = Graph::new();
    g.add_edge(s("a"), s("b"));
    g.add_node(s("a"));
    assert_eq!(g.adj(&s("a")), Some(set_of(&["b"])));
    assert_eq!(g.nodes(), set_of(&["a", "b"]));
}

#[test]
fn add_edge_links_both_ends_and_creates_them() {
    let mut g = Graph::new();
    g.add_edge(s("u"), s("v"));
    assert_eq!(g.nodes(), set_of(&["u", "v"]));
    assert_eq!(g.adj(&s("u")), Some(set_of(&["v"])));
    assert_eq!(g.adj(&s("v")), Some(set_of(&["u"])));
}

#[test]
fn add_edge_twice_changes_nothing() {
    let mut g = Graph::new();
    g.add_edge(s("u"), s("v"));
    g.add_edge(s("u"), s("v"));
    g.add_edge(s("v"), s("u"));
    assert_eq!(g.nodes(), set_of(&["u", "v"]));
    assert_eq!(g.adj(&s("u")), Some(set_of(&["v"])));
    assert_eq!(g.adj(&s("v")), Some(set_of(&["u"])));
    assert_eq!(g.to_dot(), "digraph G {\n    \"u\" -> \"v\";\n    \"v\" -> \"u\";\n}\n");
}

#[test]
fn add_edge_to_itself_makes_a_node_its_own_neighbour() {
    let mut g = Graph::new();
    g.add_edge(s("loop"), s("loop"));
    assert_eq!(g.nodes(), set_of(&["loop"]));
    assert_eq!(g.adj(&s("loop")), Some(set_of(&["loop"])));
    assert_eq!(g.degrees_of_separation(&s("loop"), &s("loop")), Some(0));
    assert_eq!(g.to_dot(), "digraph G {\n    \"loop\" -> \"loop\";\n}\n");
}

#[test]
fn labels_are_case_sensitive() {
    let mut g = Graph::new();
    g.add_node(s("CDRE_64"));
    g.add_node(s("cdre_64"));
    assert_eq!(g.nodes(), set_of(&["CDRE_64", "cdre_64"]));
    assert_eq!(g.degrees_of_separation(&s("CDRE_64"), &s("cdre_64")), None);
}

#[test]
fn labels_need_not_be_ascii() {
    let mut g = Graph::new();
    g.add_edge(s("zoë"), s("日本"));
    assert_eq!(g.adj(&s("zoë")), Some(set_of(&["日本"])));
    assert_eq!(g.degrees_of_separation(&s("日本"), &s("zoë")), Some(1));
    assert_eq!(g.adj(&s("zoe")), None);
}

#[test]
fn adj_of_unknown_label_is_none() {
    let mut g = Graph::new();
    g.add_node(s("known"));
    assert_eq!(g.adj(&s("unknown")), None);
    assert_eq!(g.adj(&s("known")), Some(HashSet::new()));
}

#[test]
fn separation_from_itself_is_zero() {
    let mut g = Graph::new();
    g.add_edge(s("a"), s("b"));
    assert_eq!(g.degrees_of_separation(&s("a"), &s("a")), Some(0));
    assert_eq!(g.degrees_of_separation(&s("never added"), &s("never added")), Some(0));
    assert_eq!(Graph::new().degrees_of_separation(&s("x"), &s("x")), Some(0));
}

#[test]
fn separation_along_a_path() {
    let mut g = Graph::new();
    g.add_edge(s("A"), s("B"));
    g.add_edge(s("B"), s("C"));
    assert_eq!(g.degrees_of_separation(&s("A"), &s("C")), Some(2));
    assert_eq!(g.degrees_of_separation(&s("A"), &s("B")), Some(1));
    assert_eq!(g.degrees_of_separation(&s("C"), &s("A")), Some(2));
    assert_eq!(g.degrees_of_separation(&s("B"), &s("C")), Some(1));
}

#[test]
fn separation_without_a_path_is_none() {
    let mut g = Graph::new();
    g.add_edge(s("a"), s("b"));
    g.add_edge(s("c"), s("d"));
    g.add_node(s("alone"));
    assert_eq!(g.degrees_of_separation(&s("a"), &s("c")), None);
    assert_eq!(g.degrees_of_separation(&s("d"), &s("b")), None);
    assert_eq!(g.degrees_of_separation(&s("a"), &s("alone")), None);
    assert_eq!(g.degrees_of_separation(&s("alone"), &s("a")), None);
}

#[test]
fn separation_with_an_unknown_end_is_none() {
    let mut g = Graph::new();
    g.add_edge(s("a"), s("b"));
    assert_eq!(g.degrees_of_separation(&s("a"), &s("nobody")), None);
    assert_eq!(g.degrees_of_separation(&s("nobody"), &s("a")), None);
    assert_eq!(g.degrees_of_separation(&s("nobody"), &s("no one")), None);
}

#[test]
fn separation_takes_the_shortest_of_several_paths() {
    let mut g = Graph::new();
    // a long way round: a - b - c - d - e
    g.add_edge(s("a"), s("b"));
    g.add_edge(s("b"), s("c"));
    g.add_edge(s("c"), s("d"));
    g.add_edge(s("d"), s("e"));
    assert_eq!(g.degrees_of_separation(&s("a"), &s("e")), Some(4));
    // a short cut: a - x - e
    g.add_edge(s("a"), s("x"));
    g.add_edge(s("x"), s("e"));
    assert_eq!(g.degrees_of_separation(&s("a"), &s("e")), Some(2));
    assert_eq!(g.degrees_of_separation(&s("a"), &s("d")), Some(3));
    assert_eq!(g.degrees_of_separation(&s("b"), &s("x")), Some(2));
    // a direct edge
    g.add_edge(s("e"), s("a"));
    assert_eq!(g.degrees_of_separation(&s("a"), &s("e")), Some(1));
    assert_eq!(g.degrees_of_separation(&s("a"), &s("d")), Some(2));
}

#[test]
fn separation_in_a_graph_with_cycles_and_loops() {
    let mut g = Graph::new();
    g.add_edge(s("1"), s("2"));
    g.add_edge(s("2"), s("3"));
    g.add_edge(s("3"), s("1"));
    g.add_edge(s("3"), s("3"));
    g.add_edge(s("3"), s("4"));
    g.add_edge(s("4"), s("5"));
    g.add_edge(s("2"), s("4"));
    assert_eq!(g.degrees_of_separation(&s("1"), &s("5")), Some(3));
    assert_eq!(g.degrees_of_separation(&s("5"), &s("1")), Some(3));
    assert_eq!(g.degrees_of_separation(&s("1"), &s("4")), Some(2));
    assert_eq!(g.degrees_of_separation(&s("2"), &s("3")), Some(1));
}

#[test]
fn separation_in_a_complete_graph_is_one() {
    let labels = ["p", "q", "r", "s", "t", "u"];
    let mut g = Graph::new();
    for a in labels {
        for b in labels {
            if a != b {
                g.add_edge(s(a), s(b));
            }
        }
    }
    for a in labels {
        for b in labels {
            let expected = if a == b { 0 } else { 1 };
            assert_eq!(g.degrees_of_separation(&s(a), &s(b)), Some(expected));
        }
    }
}

#[test]
fn separation_along_a_long_chain() {
    let mut g = Graph::new();
    for i in 0..200 {
        g.add_edge(format!("n{}", i), format!("n{}", i + 1));
    }
    assert_eq!(g.degrees_of_separation(&s("n0"), &s("n200")), Some(200));
    assert_eq!(g.degrees_of_separation(&s("n200"), &s("n0")), Some(200));
    assert_eq!(g.degrees_of_separation(&s("n50"), &s("n75")), Some(25));
    assert_eq!(g.nodes().len(), 201);
}

#[test]
fn round_trip_of_two_nodes_and_an_edge() {
    let mut g = Graph::new();
    g.add_node(s("askreddit"));
    g.add_node(s("rotoreuters"));
    g.add_edge(s("askreddit"), s("rotoreuters"));
    assert_eq!(g.nodes(), set_of(&["askreddit", "rotoreuters"]));
    assert_eq!(g.degrees_of_separation(&s("askreddit"), &s("rotoreuters")), Some(1));
    let dot = g.to_dot();
    assert!(dot.contains("    \"askreddit\" -> \"rotoreuters\";\n"));
    assert!(dot.contains("    \"rotoreuters\" -> \"askreddit\";\n"));
    assert_eq!(
        dot,
        "digraph G {\n    \"askreddit\" -> \"rotoreuters\";\n    \"rotoreuters\" -> \"askreddit\";\n}\n"
    );
}

#[test]
fn dot_of_an_empty_graph_has_no_statements() {
    assert_eq!(Graph::new().to_dot(), "digraph G {\n}\n");
}

#[test]
fn dot_leaves_out_nodes_without_neighbours() {
    let mut g = Graph::new();
    g.add_node(s("alone"));
    assert_eq!(g.to_dot(), "digraph G {\n}\n");
    g.add_edge(s("a"), s("b"));
    assert_eq!(g.to_dot(), "digraph G {\n    \"a\" -> \"b\";\n    \"b\" -> \"a\";\n}\n");
}

#[test]
fn dot_lists_nodes_and_neighbours_in_the_order_they_came() {
    let mut g = Graph::new();
    g.add_node(s("c"));
    g.add_edge(s("a"), s("b"));
    g.add_edge(s("c"), s("a"));
    g.add_edge(s("b"), s("c"));
    let expected = "digraph G {\n\
        \x20   \"c\" -> \"a\";\n\
        \x20   \"c\" -> \"b\";\n\
        \x20   \"a\" -> \"b\";\n\
        \x20   \"a\" -> \"c\";\n\
        \x20   \"b\" -> \"a\";\n\
        \x20   \"b\" -> \"c\";\n\
        }\n";
    assert_eq!(g.to_dot(), expected);
}

#[test]
fn dot_writes_labels_as_they_are() {
    let mut g = Graph::new();
    g.add_edge(s("a \"b\""), s("c\\d"));
    assert_eq!(
        g.to_dot(),
        "digraph G {\n    \"a \"b\"\" -> \"c\\d\";\n    \"c\\d\" -> \"a \"b\"\";\n}\n"
    );
}

#[test]
fn dot_has_one_statement_for_each_arc() {
    let mut g = Graph::new();
    g.add_edge(s("hub"), s("a"));
    g.add_edge(s("hub"), s("b"));
    g.add_edge(s("hub"), s("c"));
    g.add_edge(s("a"), s("hub"));
    let dot = g.to_dot();
    assert_eq!(dot.matches(" -> ").count(), 6);
    for (from, to) in [("hub", "a"), ("a", "hub"), ("hub", "b"), ("b", "hub"), ("hub", "c"), ("c", "hub")] {
        let line = format!("    \"{}\" -> \"{}\";\n", from, to);
        assert_eq!(dot.matches(&line).count(), 1);
    }
}

#[test]
fn nodes_and_adj_are_snapshots() {
    let mut g = Graph::new();
    g.add_edge(s("a"), s("b"));
    let mut nodes = g.nodes();
    let mut neighbours = g.adj(&s("a")).unwrap();
    nodes.insert(s("intruder"));
    neighbours.insert(s("intruder"));
    assert_eq!(g.nodes(), set_of(&["a", "b"]));
    assert_eq!(g.adj(&s("a")), Some(set_of(&["b"])));
    g.add_edge(s("a"), s("c"));
    assert_eq!(g.adj(&s("a")), Some(set_of(&["b", "c"])));
    assert_eq!(g.adj(&s("c")), Some(set_of(&["a"])));
}

#[test]
fn adjacency_is_symmetric_and_closed_after_many_edges() {
    let mut g = Graph::new();
    let edges = [("a", "b"), ("b", "c"), ("c", "a"), ("d", "d"), ("e", "a"), ("b", "a"), ("f", "e")];
    for (u, v) in edges {
        g.add_edge(s(u), s(v));
    }
    let nodes = g.nodes();
    assert_eq!(nodes, set_of(&["a", "b", "c", "d", "e", "f"]));
    for u in &nodes {
        for v in g.adj(u).unwrap() {
            assert!(nodes.contains(&v));
            assert!(g.adj(&v).unwrap().contains(u));
        }
    }
}

/// A small linear congruential generator, so that the graphs below are the
/// same on every run.
fn next(state: &mut u64) -> u64 {
    *state = state.wrapping_mul(6364136223846793005).wrapping_add(1442695040888963407);
    *state >> 33
}

/// The distance between two labels in a plain adjacency map, found by
/// growing the set of labels within reach one step at a time.
fn plain_distance(
    adj: &std::collections::HashMap<String, HashSet<String>>,
    start: &String,
    end: &String,
) -> Option<usize> {
    let mut reached: HashSet<String> = HashSet::new();
    reached.insert(start.clone());
    let mut steps = 0;
    loop {
        if reached.contains(end) {
            return Some(steps);
        }
        let mut wider = reached.clone();
        for label in &reached {
            for neighbour in adj.get(label).into_iter().flatten() {
                wider.insert(neighbour.clone());
            }
        }
        if wider.len() == reached.len() {
            return None;
        }
        reached = wider;
        steps += 1;
    }
}

#[test]
fn random_graphs_agree_with_a_plain_adjacency_map() {
    let mut state: u64 = 2024;
    for round in 0..40 {
        let labels = 2 + (next(&mut state) % 14) as usize;
        let edges = (next(&mut state) % 30) as usize;
        let mut g = Graph::new();
        let mut plain: std::collections::HashMap<String, HashSet<String>> =
            std::collections::HashMap::new();
        for _ in 0..(round % 4) {
            let u = format!("v{}", next(&mut state) as usize % labels);
            g.add_node(u.clone());
            plain.entry(u).or_insert_with(HashSet::new);
        }
        for _ in 0..edges {
            let u = format!("v{}", next(&mut state) as usize % labels);
            let v = format!("v{}", next(&mut state) as usize % labels);
            g.add_edge(u.clone(), v.clone());
            plain.entry(u.clone()).or_insert_with(HashSet::new).insert(v.clone());
            plain.entry(v).or_insert_with(HashSet::new).insert(u);
        }
        let expected_nodes: HashSet<String> = plain.keys().cloned().collect();
        assert_eq!(g.nodes(), expected_nodes);
        let mut arcs = 0;
        for i in 0..labels + 1 {
            let a = format!("v{}", i);
            assert_eq!(g.adj(&a), plain.get(&a).cloned());
            arcs += plain.get(&a).map_or(0, |n| n.len());
            for j in 0..labels + 1 {
                let b = format!("v{}", j);
                assert_eq!(g.degrees_of_separation(&a, &b), plain_distance(&plain, &a, &b));
            }
        }
        assert_eq!(g.to_dot().matches(" -> ").count(), arcs);
    }
}
