//! Nodes from delimited text: the first column of each row names a node.

use crate::graph::Graph;
use crate::inspect::labels_in;
use crate::model::{lemma_with_nodes_push, with_nodes, Adjacency};
use vstd::prelude::*;

verus! {

/// The error type of the `csv` crate. Nothing is known of a value of it.
#[verifier::external_type_specification]
#[verifier::external_body]
pub struct ExCsvError(csv::Error);

/// Why an import stopped. `row` counts the rows after the header, from zero.
#[derive(Clone, Copy, Debug, PartialEq, Eq)]
pub enum ImportError {
    /// The reader could not make a record of this row, as when its text is
    /// not valid UTF-8 or it has another number of fields than the rows
    /// before it.
    Malformed { row: usize },
    /// This row has no first column.
    MissingColumn { row: usize },
}

/// The rows that the `csv` crate reads from `data` with its default reader,
/// which takes the first record as a header and leaves it out: for each
/// following record in turn its fields, or `None` where the reader reports
/// an error in place of the record.
pub uninterp spec fn csv_rows(data: Seq<u8>) -> Seq<Option<Seq<Seq<char>>>>;

/// What the contracts see of a row that the reader gave: the fields of a
/// record, `None` for an error.
pub open spec fn row_model(row: Result<Vec<String>, csv::Error>) -> Option<Seq<Seq<char>>> {
    match row {
        Ok(fields) => Some(labels_in(fields@)),
        Err(_) => None,
    }
}

/// What the contracts see of the rows that the reader gave.
pub open spec fn rows_model(rows: Seq<Result<Vec<String>, csv::Error>>) -> Seq<
    Option<Seq<Seq<char>>>,
> {
    rows.map_values(|row: Result<Vec<String>, csv::Error>| row_model(row))
}

/// Reads `data` as delimited text with a header row, by
/// `csv::ReaderBuilder::from_reader` and `csv::Reader::into_records`, and
/// hands out every item of that iterator, the fields of each record copied
/// into strings. Trusted: the rows are those that `csv_rows` names.
#[verifier::external_body]
fn read_rows(data: &[u8]) -> (rows: Vec<Result<Vec<String>, csv::Error>>)
    ensures
        rows_model(rows@) == csv_rows(data@),
{
    csv::ReaderBuilder::new()
        .has_headers(true)
        .from_reader(data)
        .into_records()
        .map(|row| row.map(|record| record.iter().map(String::from).collect()))
        .collect()
}

/// Whether a row names a node: it is a record, and has a first column.
pub open spec fn names_node(row: Option<Seq<Seq<char>>>) -> bool {
    row matches Some(fields) && fields.len() > 0
}

/// Whether an import of `rows` gets as far as row `k` and no further: the
/// rows before it all name a node, and row `k`, if there is one, does not.
pub open spec fn stops_at(rows: Seq<Option<Seq<Seq<char>>>>, k: int) -> bool {
    &&& 0 <= k <= rows.len()
    &&& forall|i: int| 0 <= i < k ==> names_node(#[trigger] rows[i])
    &&& k < rows.len() ==> !names_node(rows[k])
}

/// The first columns of the first `k` rows.
pub open spec fn first_columns(rows: Seq<Option<Seq<Seq<char>>>>, k: int) -> Seq<Seq<char>> {
    Seq::new(k as nat, |i: int| rows[i]->0[0])
}

/// The error for row `k`, which names no node.
pub open spec fn failure_at(rows: Seq<Option<Seq<Seq<char>>>>, k: int) -> ImportError {
    if rows[k] is None {
        ImportError::Malformed { row: k as usize }
    } else {
        ImportError::MissingColumn { row: k as usize }
    }
}

/// Whether `after` and `outcome` are what an import of `rows` makes of the
/// graph `before`. The rows are taken in turn, and each adds its first column
/// as a node, up to the first row that names none. Without such a row the
/// import succeeds; with one it fails with the error for that row, and the
/// nodes of the rows before it stay.
pub open spec fn imported(
    before: Adjacency,
    rows: Seq<Option<Seq<Seq<char>>>>,
    after: Adjacency,
    outcome: Result<(), ImportError>,
) -> bool {
    match outcome {
        Ok(_) => stops_at(rows, rows.len() as int) && after == with_nodes(
            before,
            first_columns(rows, rows.len() as int),
        ),
        Err(e) => exists|k: int|
            0 <= k < rows.len() && #[trigger] stops_at(rows, k) && e == failure_at(rows, k)
                && after == with_nodes(before, first_columns(rows, k)),
    }
}

impl Graph {
    /// Adds the first column of each row as a node, row by row, and stops at
    /// the first row that is an error or has no column.
    pub fn add_rows(&mut self, rows: &Vec<Result<Vec<String>, csv::Error>>) -> (r: Result<
        (),
        ImportError,
    >)
        requires
            old(self).wf(),
        ensures
            final(self).wf(),
            imported(old(self)@, rows_model(rows@), final(self)@, r),
    {
        let ghost seen = rows_model(rows@);
        let mut i: usize = 0;
        proof {
            lemma_with_nodes_push(self@, Seq::empty(), Seq::empty());
            assert(first_columns(seen, 0) =~= Seq::empty());
        }
        while i < rows.len()
            invariant
                self.wf(),
                seen == rows_model(rows@),
                forall|k: int| 0 <= k < i ==> names_node(#[trigger] seen[k]),
                i <= seen.len(),
                self@ == with_nodes(old(self)@, first_columns(seen, i as int)),
            decreases rows@.len() - i,
        {
            proof {
                assert(seen[i as int] == row_model(rows@[i as int]));
            }
            match &rows[i] {
                Err(_) => {
                    proof {
                        assert(stops_at(seen, i as int));
                    }
                    return Err(ImportError::Malformed { row: i });
                },
                Ok(fields) => {
                    if fields.len() == 0 {
                        proof {
                            assert(stops_at(seen, i as int));
                        }
                        return Err(ImportError::MissingColumn { row: i });
                    }
                    proof {
                        let sofar = first_columns(seen, i as int);
                        lemma_with_nodes_push(old(self)@, sofar, fields@[0]@);
                        assert(first_columns(seen, i + 1) =~= sofar.push(fields@[0]@));
                    }
                    self.add_node(fields[0].clone());
                },
            }
            i += 1;
        }
        proof {
            assert(stops_at(seen, seen.len() as int));
        }
        Ok(())
    }

    /// Reads `data` as delimited text with a header row and adds the first
    /// column of each row after the header as a node.
    ///
    /// The import stops at the first row that the reader cannot make a
    /// record of; the nodes of the rows before it stay in the graph.
    pub fn add_from_csv(&mut self, data: &[u8]) -> (r: Result<(), ImportError>)
        requires
            old(self).wf(),
        ensures
            final(self).wf(),
            imported(old(self)@, csv_rows(data@), final(self)@, r),
    {
        let rows = read_rows(data);
        self.add_rows(&rows)
    }
}

} // verus!
