use std::collections::HashSet;

use social_graph::import::ImportError;
use social_graph::Graph;

fn labels(items: &[&str]) -> HashSet<String> {
    items.iter().map(|l| l.to_string()).collect()
}

fn record(fields: &[&str]) -> Result<Vec<String>, csv::Error> {
    Ok(fields.iter().map(|f| f.to_string()).collect())
}

fn reader_error() -> Result<Vec<String>, csv::Error> {
    Err(csv::Error::from(std::io::Error::new(std::io::ErrorKind::Other, "broken")))
}

#[test]
fn csv_first_column_becomes_nodes() {
    let mut g = Graph::new();
    let data = "name,score\naskreddit,1\nfunny,2\nthe_donald,3\n";
    assert_eq!(g.add_from_csv(data.as_bytes()), Ok(()));
    assert_eq!(g.nodes(), labels(&["askreddit", "funny", "the_donald"]));
    assert_eq!(g.adj(&"funny".to_string()), Some(HashSet::new()));
}

#[test]
fn csv_header_row_is_left_out() {
    let mut g = Graph::new();
    assert_eq!(g.add_from_csv(b"user\n"), Ok(()));
    assert_eq!(g.nodes(), HashSet::new());
    assert_eq!(g.add_from_csv(b"user\nrotoreuters\n"), Ok(()));
    assert_eq!(g.nodes(), labels(&["rotoreuters"]));
}

#[test]
fn csv_of_nothing_adds_nothing() {
    let mut g = Graph::new();
    g.add_node("kept".to_string());
    assert_eq!(g.add_from_csv(b""), Ok(()));
    assert_eq!(g.nodes(), labels(&["kept"]));
}

#[test]
fn csv_repeated_names_give_one_node() {
    let mut g = Graph::new();
    g.add_edge("a".to_string(), "b".to_string());
    assert_eq!(g.add_from_csv(b"h\na\nc\na\nc\n"), Ok(()));
    assert_eq!(g.nodes(), labels(&["a", "b", "c"]));
    assert_eq!(g.adj(&"a".to_string()), Some(labels(&["b"])));
}

#[test]
fn csv_quoted_and_empty_first_columns() {
    let mut g = Graph::new();
    assert_eq!(g.add_from_csv(b"h,k\n\"x, y\",1\n,2\n\"say \"\"hi\"\"\",3\n"), Ok(()));
    assert_eq!(g.nodes(), labels(&["x, y", "", "say \"hi\""]));
}

#[test]
fn csv_row_of_another_length_is_malformed() {
    let mut g = Graph::new();
    let r = g.add_from_csv(b"name,score\nfirst,1\nsecond\nthird,3\n");
    assert_eq!(r, Err(ImportError::Malformed { row: 1 }));
    assert_eq!(g.nodes(), labels(&["first"]));
}

#[test]
fn csv_row_that_is_not_utf8_is_malformed() {
    let mut g = Graph::new();
    let r = g.add_from_csv(b"name\nfine\n\xff\xfe\nlater\n");
    assert_eq!(r, Err(ImportError::Malformed { row: 1 }));
    assert_eq!(g.nodes(), labels(&["fine"]));
}

#[test]
fn csv_first_row_malformed_adds_nothing() {
    let mut g = Graph::new();
    let r = g.add_from_csv(b"a,b\nonly one\n");
    assert_eq!(r, Err(ImportError::Malformed { row: 0 }));
    assert_eq!(g.nodes(), HashSet::new());
}

#[test]
fn rows_add_their_first_column() {
    let mut g = Graph::new();
    let rows = vec![record(&["a", "1"]), record(&["b"]), record(&["a", "x", "y"])];
    assert_eq!(g.add_rows(&rows), Ok(()));
    assert_eq!(g.nodes(), labels(&["a", "b"]));
}

#[test]
fn rows_none_is_ok() {
    let mut g = Graph::new();
    assert_eq!(g.add_rows(&Vec::new()), Ok(()));
    assert_eq!(g.nodes(), HashSet::new());
}

#[test]
fn rows_stop_at_a_row_without_columns() {
    let mut g = Graph::new();
    let rows = vec![record(&["a"]), record(&["b"]), record(&[]), record(&["c"])];
    assert_eq!(g.add_rows(&rows), Err(ImportError::MissingColumn { row: 2 }));
    assert_eq!(g.nodes(), labels(&["a", "b"]));
}

#[test]
fn rows_stop_at_a_reader_error() {
    let mut g = Graph::new();
    let rows = vec![record(&["a"]), reader_error(), record(&["c"]), record(&[])];
    assert_eq!(g.add_rows(&rows), Err(ImportError::Malformed { row: 1 }));
    assert_eq!(g.nodes(), labels(&["a"]));
}

#[test]
fn rows_first_failure_decides_the_error() {
    let mut g = Graph::new();
    let rows = vec![record(&[]), reader_error()];
    assert_eq!(g.add_rows(&rows), Err(ImportError::MissingColumn { row: 0 }));
    let rows = vec![reader_error(), record(&[])];
    assert_eq!(g.add_rows(&rows), Err(ImportError::Malformed { row: 0 }));
    assert_eq!(g.nodes(), HashSet::new());
}

#[test]
fn imported_nodes_take_part_in_searches() {
    let mut g = Graph::new();
    assert_eq!(g.add_from_csv(b"subreddit\naskreddit\nfunny\n"), Ok(()));
    g.add_edge("askreddit".to_string(), "rotoreuters".to_string());
    g.add_edge("rotoreuters".to_string(), "funny".to_string());
    assert_eq!(g.degrees_of_separation(&"askreddit".to_string(), &"funny".to_string()), Some(2));
}

#[test]
fn csv_header_need_not_be_utf8() {
    let mut g = Graph::new();
    assert_eq!(g.add_from_csv(b"\xff\xfe\nname\n"), Ok(()));
    assert_eq!(g.nodes(), labels(&["name"]));
}

#[test]
fn csv_line_endings_and_missing_final_newline() {
    let mut g = Graph::new();
    assert_eq!(g.add_from_csv(b"h\r\na\r\n\r\nb"), Ok(()));
    assert_eq!(g.nodes(), labels(&["a", "b"]));
}

#[test]
fn csv_import_twice_is_an_import_once() {
    let mut once = Graph::new();
    let mut twice = Graph::new();
    let data = b"user,karma\nfiplefip,3\namici_ursi,5\n";
    assert_eq!(once.add_from_csv(data), Ok(()));
    assert_eq!(twice.add_from_csv(data), Ok(()));
    assert_eq!(twice.add_from_csv(data), Ok(()));
    assert_eq!(once.nodes(), twice.nodes());
    assert_eq!(once.to_dot(), twice.to_dot());
}
