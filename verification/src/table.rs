//! Tables: a header row and data rows of text fields, as they are read from
//! comma-separated text.

use crate::ident::same_text;
use vstd::prelude::*;

verus! {

/// The error with which the `csv` crate refuses a document.
#[verifier::external_type_specification]
#[verifier::external_body]
pub struct ExCsvError(csv::Error);

/// The records that the `csv` crate reads from a document, the header row
/// first, each a row of text fields; nothing where it refuses the document.
pub uninterp spec fn csv_records(data: Seq<u8>) -> Option<Seq<Seq<Seq<char>>>>;

/// Reads every record of a document with `csv::Reader::into_records`, the
/// reader built with `has_headers(false)` so that the header row comes first.
/// The contract only names what the crate returns: the rows on success, and
/// that there are none where it fails.
#[verifier::external_body]
fn read_records(data: &[u8]) -> (r: Result<Vec<Vec<String>>, csv::Error>)
    ensures
        match r {
            Ok(rows) => csv_records(data@) == Some(rows.deep_view()),
            Err(_) => csv_records(data@) is None,
        },
{
    let reader = csv::ReaderBuilder::new().has_headers(false).from_reader(data);
    let mut rows: Vec<Vec<String>> = Vec::new();
    for record in reader.into_records() {
        rows.push(record?.iter().map(String::from).collect());
    }
    Ok(rows)
}

/// Reads a document into its rows of text fields, the header row first;
/// nothing where the text is no table.
pub fn read_table(data: &[u8]) -> (r: Option<Vec<Vec<String>>>)
    ensures
        match r {
            Some(rows) => csv_records(data@) == Some(rows.deep_view()),
            None => csv_records(data@) is None,
        },
{
    match read_records(data) {
        Ok(rows) => Some(rows),
        Err(_) => None,
    }
}

/// Whether column `i` of the header carries one of the two names.
pub open spec fn names(header: Seq<Seq<char>>, i: int, short: Seq<char>, long: Seq<char>) -> bool {
    0 <= i < header.len() && (header[i] == short || header[i] == long)
}

/// Whether column `i` is the only one that carries one of the two names.
pub open spec fn sole_column(
    header: Seq<Seq<char>>,
    i: int,
    short: Seq<char>,
    long: Seq<char>,
) -> bool {
    names(header, i, short, long) && forall|j: int| names(header, j, short, long) ==> j == i
}

/// The column of a field: the one column that carries its short or its long
/// name. A header that names it twice, or not at all, has no such column.
pub open spec fn column_of(header: Seq<Seq<char>>, short: Seq<char>, long: Seq<char>) -> Option<
    usize,
> {
    if exists|i: int| sole_column(header, i, short, long) {
        Some((choose|i: int| sole_column(header, i, short, long)) as usize)
    } else {
        None
    }
}

/// What a row holds in a column; nothing where the column is missing or the
/// row is too short.
pub open spec fn cell(row: Seq<Seq<char>>, column: Option<usize>) -> Option<Seq<char>> {
    match column {
        Some(i) => if i < row.len() {
            Some(row[i as int])
        } else {
            None
        },
        None => None,
    }
}

/// Finds the column of a field in the header.
pub fn find_column(header: &Vec<String>, short: &str, long: &str) -> (r: Option<usize>)
    ensures
        r == column_of(header.deep_view(), short@, long@),
{
    let ghost h = header.deep_view();
    let mut found: Option<usize> = None;
    let mut i: usize = 0;
    while i < header.len()
        invariant
            0 <= i <= header.len(),
            h == header.deep_view(),
            match found {
                Some(k) => k < i && names(h, k as int, short@, long@) && forall|j: int|
                    0 <= j < i && names(h, j, short@, long@) ==> j == k,
                None => forall|j: int| 0 <= j < i ==> !names(h, j, short@, long@),
            },
        decreases header.len() - i,
    {
        let name = header[i].as_str();
        assert(h[i as int] == header[i as int]@);
        if same_text(name, short) || same_text(name, long) {
            if found.is_some() {
                proof {
                    let k = found->0 as int;
                    assert forall|c: int| !sole_column(h, c, short@, long@) by {
                        if names(h, c, short@, long@) {
                            if c == k {
                                assert(names(h, i as int, short@, long@));
                            } else {
                                assert(names(h, k, short@, long@));
                            }
                        }
                    }
                }
                return None;
            }
            found = Some(i);
        }
        i += 1;
    }
    proof {
        match found {
            Some(k) => {
                assert(sole_column(h, k as int, short@, long@));
            },
            None => {
                assert forall|c: int| !sole_column(h, c, short@, long@) by {}
            },
        }
    }
    found
}

/// What a row holds in a column.
pub fn get_cell<'a>(row: &'a Vec<String>, column: Option<usize>) -> (r: Option<&'a str>)
    ensures
        match r {
            Some(text) => cell(row.deep_view(), column) == Some(text@),
            None => cell(row.deep_view(), column) is None,
        },
{
    match column {
        Some(i) => {
            if i < row.len() {
                assert(row.deep_view()[i as int] == row[i as int]@);
                Some(row[i].as_str())
            } else {
                None
            }
        },
        None => None,
    }
}

} // verus!
