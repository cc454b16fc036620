//! The few calls into outside code that the library rests on, each behind
//! a small trusted wrapper whose contract names or states what the call
//! returns.  Everything else in the crate is verified against these
//! contracts.

use vstd::prelude::*;

verus! {

/// What `voca_rs::case::title_case` returns for a text: a pure function
/// of the characters alone.
pub uninterp spec fn title_of(s: Seq<char>) -> Seq<char>;

/// Relies on `voca_rs::case::title_case`: splits the text into words and
/// capitalizes each.  The result depends on the characters alone.
#[verifier::external_body]
pub(crate) fn title_case(s: &str) -> (r: String)
    ensures
        r@ == title_of(s@),
{
    voca_rs::case::title_case(s)
}

/// Whether `voca_rs::query::is_alpha` holds of the one-character string
/// of `c`: a pure function of the character alone.
pub uninterp spec fn alpha_char(c: char) -> bool;

/// Relies on `voca_rs::query::is_alpha`, applied to a single character:
/// whether the character counts as alphabetic.
#[verifier::external_body]
pub(crate) fn is_alpha_char(c: char) -> (r: bool)
    ensures
        r == alpha_char(c),
{
    voca_rs::query::is_alpha(&c.to_string())
}

/// What `str::to_lowercase` returns for a text: a pure function of the
/// characters alone.
pub uninterp spec fn lower_of(s: Seq<char>) -> Seq<char>;

/// Relies on `str::to_lowercase` from std: the Unicode lowercase mapping
/// of the text.
#[verifier::external_body]
pub(crate) fn to_lowercase(s: &str) -> (r: String)
    ensures
        r@ == lower_of(s@),
{
    s.to_lowercase()
}

/// What the csv reader makes of a text: the header row and the records
/// after it, each as its fields, or nothing when any part fails to parse.
pub uninterp spec fn csv_table_of(s: Seq<char>) -> Option<(Seq<Seq<char>>, Seq<Seq<Seq<char>>>)>;

/// Relies on `csv::Reader` over the in-memory text: the first row is
/// returned as the headers, every further row as its fields, and any
/// reader error (a malformed or short row among them) as `None`.
#[verifier::external_body]
pub(crate) fn csv_rows(text: &str) -> (r: Option<(Vec<String>, Vec<Vec<String>>)>)
    ensures
        match r {
            Some(t) => csv_table_of(text@) == Some((t.0.deep_view(), t.1.deep_view())),
            None => csv_table_of(text@) is None,
        },
{
    let mut rdr = csv::Reader::from_reader(text.as_bytes());
    let headers: Vec<String> = match rdr.headers() {
        Ok(h) => h.iter().map(str::to_string).collect(),
        Err(_) => return None,
    };
    let mut rows: Vec<Vec<String>> = Vec::new();
    for rec in rdr.records() {
        match rec {
            Ok(q) => rows.push(q.iter().map(str::to_string).collect()),
            Err(_) => return None,
        }
    }
    Some((headers, rows))
}

} // verus!
