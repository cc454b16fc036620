//! The per-vendor codename table: rows of `version` and `series` loaded
//! from CSV text, ordered by the numeric value of `version`; the release
//! order derived from it (extended with the fixed Debian suites for the
//! Debian vendor); and the codename lookup over it.

use vstd::prelude::*;
use vstd::string::StrSliceExecFns;
use vstd::string::StringExecFns;
use crate::strutil::{str_eq, run_end, lemma_run_end};
use crate::numdec::{
    dec_parse, dec_le, dec_parse_exec, dec_le_exec, lemma_dec_parse_digits, lemma_dec_le_total,
    lemma_dec_le_trans, is_digit, is_digit_exec, digits_val, strip0, lemma_strip0,
    lemma_digits_val_len, lemma_digits_val_single, run_digits, all_digits,
};
use crate::foreign::{csv_rows, csv_table_of, to_lowercase, lower_of};
use crate::info::DetectError;

verus! {

/// One row of the codename CSV: the numeric `version` and the `series`
/// (codename) columns; other columns are ignored.
pub struct CsvRow {
    pub version: String,
    pub series: String,
}

impl View for CsvRow {
    type V = (Seq<char>, Seq<char>);

    open spec fn view(&self) -> (Seq<char>, Seq<char>) {
        (self.version@, self.series@)
    }
}

pub ghost struct CodenameTableV {
    pub rows: Seq<(Seq<char>, Seq<char>)>,
    pub release_order: Seq<Seq<char>>,
    pub testing_sentinel: Option<Seq<char>>,
}

/// The loaded table: rows sorted ascending by the numeric value of their
/// version, the series in that order (for Debian extended with the fixed
/// suite names), and the testing sentinel for the Debian vendor only.
pub struct CodenameTable {
    pub rows: Vec<CsvRow>,
    pub release_order: Vec<String>,
    pub testing_sentinel: Option<String>,
}

impl View for CodenameTable {
    type V = CodenameTableV;

    open spec fn view(&self) -> CodenameTableV {
        CodenameTableV {
            rows: rows_view(self.rows@),
            release_order: self.release_order.deep_view(),
            testing_sentinel: self.testing_sentinel.deep_view(),
        }
    }
}

pub open spec fn rows_view(s: Seq<CsvRow>) -> Seq<(Seq<char>, Seq<char>)> {
    s.map_values(|r: CsvRow| r@)
}

/// Rows ordered by the numeric value of their version strings.
pub open spec fn rows_sorted(s: Seq<(Seq<char>, Seq<char>)>) -> bool {
    forall|i: int, j: int| 0 <= i < j < s.len() ==> row_le(#[trigger] s[i], #[trigger] s[j])
}

pub open spec fn row_le(a: (Seq<char>, Seq<char>), b: (Seq<char>, Seq<char>)) -> bool {
    dec_le(dec_parse(a.0).unwrap(), dec_parse(b.0).unwrap())
}

pub open spec fn rows_parseable(s: Seq<(Seq<char>, Seq<char>)>) -> bool {
    forall|i: int| 0 <= i < s.len() ==> dec_parse((#[trigger] s[i]).0) is Some
}

/// Index of the first element equal to `key`, if any.
pub open spec fn find_in_seq(xs: Seq<Seq<char>>, key: Seq<char>, from: int) -> Option<int>
    decreases xs.len() - from,
{
    if from < 0 || from >= xs.len() {
        None
    } else if xs[from] == key {
        Some(from)
    } else {
        find_in_seq(xs, key, from + 1)
    }
}

pub proof fn lemma_find_in_seq(xs: Seq<Seq<char>>, key: Seq<char>, from: int)
    requires
        0 <= from,
    ensures
        match find_in_seq(xs, key, from) {
            Some(i) => from <= i < xs.len() && xs[i] == key && (forall|j: int|
                from <= j < i ==> xs[j] != key),
            None => forall|j: int| from <= j < xs.len() ==> xs[j] != key,
        },
    decreases xs.len() - from,
{
    if from < xs.len() && xs[from] != key {
        lemma_find_in_seq(xs, key, from + 1);
    }
}

/// Exec search for `key` among the strings of `xs`.
pub fn find_key(xs: &Vec<String>, key: &str) -> (r: Option<usize>)
    ensures
        match r {
            Some(i) => find_in_seq(xs.deep_view(), key@, 0) == Some(i as int) && i < xs.len(),
            None => find_in_seq(xs.deep_view(), key@, 0) is None,
        },
{
    let n = xs.len();
    let mut i: usize = 0;
    while i < n
        invariant
            i <= n,
            n == xs.deep_view().len(),
            find_in_seq(xs.deep_view(), key@, 0) == find_in_seq(xs.deep_view(), key@, i as int),
        decreases n - i,
    {
        if str_eq(xs[i].as_str(), key) {
            return Some(i);
        }
        i = i + 1;
    }
    None
}

/// The `version` and `series` fields of every record.
pub open spec fn rows_of(records: Seq<Seq<Seq<char>>>, vi: int, si: int) -> Seq<
    (Seq<char>, Seq<char>),
> {
    records.map_values(|r: Seq<Seq<char>>| (r[vi], r[si]))
}

pub open spec fn records_wide(records: Seq<Seq<Seq<char>>>, vi: int, si: int) -> bool {
    forall|i: int|
        0 <= i < records.len() ==> (#[trigger] records[i]).len() > vi && records[i].len() > si
}

/// The fixed suite names appended to a Debian release order.
pub open spec fn debian_ext() -> Seq<Seq<char>> {
    seq![
        "stable"@,
        "proposed-updates"@,
        "testing"@,
        "testing-proposed-updates"@,
        "unstable"@,
        "sid"@,
    ]
}

/// When a codename CSV text loads: it parses as CSV, has the two required
/// header columns, every record covers them, and every version is a
/// decimal numeral.
pub open spec fn table_load_ok(text: Seq<char>) -> bool {
    match csv_table_of(text) {
        None => false,
        Some(tbl) => match (find_in_seq(tbl.0, "version"@, 0), find_in_seq(tbl.0, "series"@, 0)) {
            (Some(vi), Some(si)) => records_wide(tbl.1, vi, si) && rows_parseable(
                rows_of(tbl.1, vi, si),
            ),
            _ => false,
        },
    }
}

/// What a loaded table holds of the text it came from.
pub open spec fn table_ok(t: CodenameTableV, vendor: Seq<char>, text: Seq<char>) -> bool {
    match csv_table_of(text) {
        None => false,
        Some(tbl) => match (find_in_seq(tbl.0, "version"@, 0), find_in_seq(tbl.0, "series"@, 0)) {
            (Some(vi), Some(si)) => {
                let raw = rows_of(tbl.1, vi, si);
                let debian = lower_of(vendor) == "debian"@;
                &&& t.rows == sort_rows(raw)
                &&& t.rows.to_multiset() == raw.to_multiset()
                &&& rows_sorted(t.rows)
                &&& rows_parseable(t.rows)
                &&& t.release_order == t.rows.map_values(
                    |r: (Seq<char>, Seq<char>)| r.1,
                ) + if debian {
                    debian_ext()
                } else {
                    Seq::empty()
                }
                &&& t.testing_sentinel == if debian {
                    Some("unknown.new.testing"@)
                } else {
                    None::<Seq<char>>
                }
            },
            _ => false,
        },
    }
}

/// Where a record is placed among already-ordered rows: directly after
/// every row that sorts at or before it, so records of one numeric value
/// keep their report order.
pub open spec fn insert_pos(
    s: Seq<(Seq<char>, Seq<char>)>,
    r: (Seq<char>, Seq<char>),
    from: int,
) -> int
    decreases s.len() - from,
{
    if from < 0 || from >= s.len() {
        s.len() as int
    } else if row_le(s[from], r) {
        insert_pos(s, r, from + 1)
    } else {
        from
    }
}

/// The value of `insert_pos` is pinned by its placement property alone.
pub proof fn lemma_insert_pos_unique(
    s: Seq<(Seq<char>, Seq<char>)>,
    r: (Seq<char>, Seq<char>),
    from: int,
    e: int,
)
    requires
        0 <= from <= e <= s.len(),
        forall|j: int| from <= j < e ==> row_le(#[trigger] s[j], r),
        e < s.len() ==> !row_le(s[e], r),
    ensures
        insert_pos(s, r, from) == e,
    decreases s.len() - from,
{
    if from < s.len() && row_le(s[from], r) {
        lemma_insert_pos_unique(s, r, from + 1, if e == from {
            from + 1
        } else {
            e
        });
    }
}

pub open spec fn spec_insert_row(
    s: Seq<(Seq<char>, Seq<char>)>,
    r: (Seq<char>, Seq<char>),
) -> Seq<(Seq<char>, Seq<char>)> {
    s.insert(insert_pos(s, r, 0), r)
}

/// The rows in their final order: each record placed, in report order,
/// behind the rows sorting at or before it.  This pins the table
/// completely, ties of numerically equal versions included.
pub open spec fn sort_rows(raw: Seq<(Seq<char>, Seq<char>)>) -> Seq<(Seq<char>, Seq<char>)>
    decreases raw.len(),
{
    if raw.len() == 0 {
        Seq::empty()
    } else {
        spec_insert_row(sort_rows(raw.drop_last()), raw.last())
    }
}

pub proof fn lemma_row_le_total(a: (Seq<char>, Seq<char>), b: (Seq<char>, Seq<char>))
    ensures
        row_le(a, b) || row_le(b, a),
{
    lemma_dec_le_total(dec_parse(a.0).unwrap(), dec_parse(b.0).unwrap());
}

pub proof fn lemma_row_le_trans(
    a: (Seq<char>, Seq<char>),
    b: (Seq<char>, Seq<char>),
    c: (Seq<char>, Seq<char>),
)
    requires
        dec_parse(a.0) is Some,
        dec_parse(b.0) is Some,
        dec_parse(c.0) is Some,
        row_le(a, b),
        row_le(b, c),
    ensures
        row_le(a, c),
{
    lemma_dec_parse_digits(a.0);
    lemma_dec_parse_digits(b.0);
    lemma_dec_parse_digits(c.0);
    lemma_dec_le_trans(dec_parse(a.0).unwrap(), dec_parse(b.0).unwrap(), dec_parse(c.0).unwrap());
}

/// Inserting anywhere adds one occurrence to the multiset.
pub proof fn lemma_to_multiset_insert<A>(s: Seq<A>, i: int, x: A)
    requires
        0 <= i <= s.len(),
    ensures
        s.insert(i, x).to_multiset() =~= s.to_multiset().insert(x),
{
    broadcast use vstd::seq_lib::group_to_multiset_ensures;
    broadcast use vstd::multiset::group_multiset_axioms;

    assert(s.insert(i, x) =~= s.subrange(0, i).push(x) + s.subrange(i, s.len() as int));
    vstd::seq_lib::lemma_multiset_commutative(
        s.subrange(0, i).push(x),
        s.subrange(i, s.len() as int),
    );
    assert(s =~= s.subrange(0, i) + s.subrange(i, s.len() as int));
    vstd::seq_lib::lemma_multiset_commutative(s.subrange(0, i), s.subrange(i, s.len() as int));
    assert(s.subrange(0, i).push(x).to_multiset() =~= s.subrange(0, i).to_multiset().insert(x));
}

/// The comparison the sort uses, on two parseable rows.
fn row_le_exec(a: &CsvRow, b: &CsvRow) -> (r: bool)
    requires
        dec_parse(a@.0) is Some,
        dec_parse(b@.0) is Some,
    ensures
        r == row_le(a@, b@),
{
    let da = dec_parse_exec(a.version.as_str());
    let db = dec_parse_exec(b.version.as_str());
    match (da, db) {
        (Some(da), Some(db)) => dec_le_exec(&da, &db),
        _ => false,
    }
}

/// Puts `row` behind the rows it does not sort before, keeping the order.
fn insert_row_sorted(v: &mut Vec<CsvRow>, row: CsvRow)
    requires
        rows_sorted(rows_view(old(v)@)),
        rows_parseable(rows_view(old(v)@)),
        dec_parse(row@.0) is Some,
    ensures
        rows_view(final(v)@) == spec_insert_row(rows_view(old(v)@), row@),
        rows_sorted(rows_view(final(v)@)),
        rows_parseable(rows_view(final(v)@)),
        rows_view(final(v)@).to_multiset() =~= rows_view(old(v)@).to_multiset().insert(row@),
{
    let ghost dv = rows_view(v@);
    let ghost rv = row@;
    let n = v.len();
    proof {
        assert forall|j: int| 0 <= j < n implies dec_parse(((#[trigger] v@[j])@).0) is Some by {
            assert(dv[j] == v@[j]@);
        }
    }
    let mut i: usize = 0;
    while i < n && row_le_exec(&v[i], &row)
        invariant
            i <= n,
            n == v@.len(),
            dv == rows_view(v@),
            rv == row@,
            dec_parse(rv.0) is Some,
            rows_parseable(dv),
            forall|j: int| 0 <= j < n ==> dec_parse(((#[trigger] v@[j])@).0) is Some,
            forall|j: int| 0 <= j < i ==> row_le(#[trigger] dv[j], rv),
        decreases n - i,
    {
        i = i + 1;
    }
    proof {
        lemma_insert_pos_unique(dv, rv, 0, i as int);
        assert forall|j: int| i <= j < n implies row_le(rv, #[trigger] dv[j]) by {
            lemma_row_le_total(dv[i as int], rv);
            assert(!row_le(dv[i as int], rv));
            if j > i {
                assert(row_le(dv[i as int], dv[j]));
                lemma_row_le_trans(rv, dv[i as int], dv[j]);
            }
        }
    }
    v.insert(i, row);
    proof {
        assert(rows_view(v@) =~= dv.insert(i as int, rv));
        dv.insert_ensures(i as int, rv);
        lemma_to_multiset_insert(dv, i as int, rv);
        let nv = rows_view(v@);
        assert forall|p: int, q: int| 0 <= p < q < nv.len() implies row_le(nv[p], nv[q]) by {
            if q < i {
                assert(row_le(dv[p], dv[q]));
            } else if p > i {
                assert(row_le(dv[p - 1], dv[q - 1]));
            } else if p < i && q == i {
            } else if p == i {
            } else {
                assert(p < i && q > i);
                assert(row_le(dv[p], dv[q - 1]));
                lemma_row_le_trans(dv[p], rv, dv[q - 1]);
            }
        }
        assert forall|j: int| 0 <= j < nv.len() implies dec_parse((#[trigger] nv[j]).0) is Some by {
            if j < i {
                assert(nv[j] == dv[j]);
            } else if j > i {
                assert(nv[j] == dv[j - 1]);
            }
        }
    }
}

impl CodenameTable {
    /// Loads a vendor's codename table from CSV text: rows need at least
    /// the `version` and `series` columns (extra columns are ignored) and
    /// every version must be a decimal numeral; any malformed row refuses
    /// the whole load.  Rows sort ascending by the numeric value of their
    /// version, numerically equal versions keeping their order in the
    /// file.  The load reports its failure instead of aborting, and the
    /// caller degrades to absent fields.
    pub fn get_distro_info(vendor: &str, csv_text: &str) -> (r: Result<CodenameTable, DetectError>)
        ensures
            r is Ok <==> table_load_ok(csv_text@),
            r matches Ok(t) ==> table_ok(t@, vendor@, csv_text@),
            r matches Err(e) ==> e is MalformedData,
    {
        let parsed = csv_rows(csv_text);
        let (headers, records) = match parsed {
            Some(p) => p,
            None => {
                return Err(DetectError::MalformedData);
            },
        };
        let vi = match find_key(&headers, "version") {
            Some(i) => i,
            None => {
                return Err(DetectError::MalformedData);
            },
        };
        let si = match find_key(&headers, "series") {
            Some(i) => i,
            None => {
                return Err(DetectError::MalformedData);
            },
        };
        let ghost headers_v = headers.deep_view();
        let ghost records_v = records.deep_view();
        let ghost raw = rows_of(records_v, vi as int, si as int);
        let mut rows: Vec<CsvRow> = Vec::new();
        let nrec = records.len();
        proof {
            assert(raw.take(0) =~= Seq::<(Seq<char>, Seq<char>)>::empty());
            assert(rows_view(rows@) =~= Seq::<(Seq<char>, Seq<char>)>::empty());
            assert(rows_view(rows@).to_multiset() =~= raw.take(0).to_multiset());
            assert(rows_view(rows@) == sort_rows(raw.take(0)));
        }
        let mut i: usize = 0;
        while i < nrec
            invariant
                i <= nrec,
                nrec == records@.len(),
                records.deep_view() == records_v,
                records_v.len() == records@.len(),
                raw == rows_of(records_v, vi as int, si as int),
                csv_table_of(csv_text@) == Some((headers_v, records_v)),
                find_in_seq(headers_v, "version"@, 0) == Some(vi as int),
                find_in_seq(headers_v, "series"@, 0) == Some(si as int),
                forall|j: int|
                    0 <= j < i ==> (#[trigger] records_v[j]).len() > vi && records_v[j].len() > si
                        && dec_parse(rows_of(records_v, vi as int, si as int)[j].0) is Some,
                rows_sorted(rows_view(rows@)),
                rows_parseable(rows_view(rows@)),
                rows_view(rows@) == sort_rows(raw.take(i as int)),
                rows_view(rows@).to_multiset() == raw.take(i as int).to_multiset(),
            decreases nrec - i,
        {
            let rec: &Vec<String> = &records[i];
            proof {
                assert(records_v[i as int] == records@[i as int].deep_view());
            }
            if vi >= rec.len() || si >= rec.len() {
                proof {
                    assert(records_v[i as int].len() == rec@.len());
                    assert(!records_wide(records_v, vi as int, si as int));
                }
                return Err(DetectError::MalformedData);
            }
            proof {
                assert(records_v[i as int].len() == rec@.len());
            }
            let row = CsvRow { version: rec[vi].clone(), series: rec[si].clone() };
            proof {
                assert(row@ == raw[i as int]);
            }
            match dec_parse_exec(row.version.as_str()) {
                None => {
                    proof {
                        assert(!rows_parseable(raw)) by {
                            assert(dec_parse(raw[i as int].0) is None);
                        }
                    }
                    return Err(DetectError::MalformedData);
                },
                Some(_) => {},
            }
            let ghost prev = rows_view(rows@);
            insert_row_sorted(&mut rows, row);
            proof {
                broadcast use vstd::seq_lib::group_to_multiset_ensures;

                assert(raw.take(i + 1) =~= raw.take(i as int).push(raw[i as int]));
                assert(raw.take(i + 1).drop_last() =~= raw.take(i as int));
                assert(raw.take(i + 1).last() == raw[i as int]);
                assert(rows_view(rows@) == sort_rows(raw.take(i + 1)));
                assert(raw.take(i + 1).to_multiset() =~= raw.take(
                    i as int,
                ).to_multiset().insert(raw[i as int]));
            }
            i = i + 1;
        }
        proof {
            assert(raw.take(nrec as int) =~= raw);
        }
        let lowered = to_lowercase(vendor);
        let debian = str_eq(lowered.as_str(), "debian");
        let mut order: Vec<String> = Vec::new();
        let ghost series_v = rows_view(rows@).map_values(|r: (Seq<char>, Seq<char>)| r.1);
        proof {
            assert(order.deep_view() =~= series_v.take(0));
        }
        let nrows = rows.len();
        let mut j: usize = 0;
        while j < nrows
            invariant
                j <= nrows,
                nrows == rows@.len(),
                series_v == rows_view(rows@).map_values(|r: (Seq<char>, Seq<char>)| r.1),
                series_v.len() == nrows,
                order.deep_view() == series_v.take(j as int),
            decreases nrows - j,
        {
            let ghost prev = order.deep_view();
            order.push(rows[j].series.clone());
            proof {
                assert(order.deep_view() =~= prev.push(series_v[j as int]));
                assert(prev.push(series_v[j as int]) =~= series_v.take(j + 1));
            }
            j = j + 1;
        }
        proof {
            assert(series_v.take(nrows as int) =~= series_v);
        }
        let testing_sentinel: Option<String>;
        if debian {
            let ghost base = order.deep_view();
            order.push(String::from_str("stable"));
            order.push(String::from_str("proposed-updates"));
            order.push(String::from_str("testing"));
            order.push(String::from_str("testing-proposed-updates"));
            order.push(String::from_str("unstable"));
            order.push(String::from_str("sid"));
            proof {
                assert(order.deep_view() =~= base + debian_ext());
            }
            testing_sentinel = Some(String::from_str("unknown.new.testing"));
        } else {
            testing_sentinel = None;
            proof {
                assert(order.deep_view() =~= series_v + Seq::<Seq<char>>::empty());
            }
        }
        let t = CodenameTable { rows, release_order: order, testing_sentinel };
        Ok(t)
    }
}

/// Where the version pattern (digits, a dot, digits, optionally `r` and
/// digits) first matches, looking at each starting position in turn.  Only
/// the two digit captures matter to the lookup; the optional tail never
/// affects them.
pub open spec fn vmatch_at(s: Seq<char>, i: int) -> bool {
    &&& 0 <= i < s.len()
    &&& is_digit(s[i])
    &&& run_end(s, i, |c: char| is_digit(c)) < s.len()
    &&& s[run_end(s, i, |c: char| is_digit(c))] == '.'
    &&& run_end(s, i, |c: char| is_digit(c)) + 1 < s.len()
    &&& is_digit(s[run_end(s, i, |c: char| is_digit(c)) + 1])
}

pub open spec fn vmatch_from(s: Seq<char>, from: int) -> Option<int>
    decreases s.len() - from,
{
    if from < 0 || from >= s.len() {
        None
    } else if vmatch_at(s, from) {
        Some(from)
    } else {
        vmatch_from(s, from + 1)
    }
}

/// The digit string without its leading zeros; all zeros leave the single
/// digit zero, as formatting the parsed number would.
pub open spec fn canon_digits(s: Seq<char>) -> Seq<char> {
    if strip0(s).len() == 0 {
        seq!['0']
    } else {
        strip0(s)
    }
}

/// The key the codename lookup searches for: for a major part below seven
/// the canonical major, a dot and the minor part verbatim; otherwise the
/// canonical major alone.
pub open spec fn short_key(release: Seq<char>) -> Option<Seq<char>> {
    match vmatch_from(release, 0) {
        None => None,
        Some(i) => {
            let mend = run_end(release, i, |c: char| is_digit(c));
            let major = release.subrange(i, mend);
            let minor = release.subrange(
                mend + 1,
                run_end(release, mend + 1, |c: char| is_digit(c)),
            );
            if digits_val(major) < 7 {
                Some(canon_digits(major) + seq!['.'] + minor)
            } else {
                Some(canon_digits(major))
            }
        },
    }
}

/// Index of the first row whose version equals the key.
pub open spec fn find_row(rows: Seq<(Seq<char>, Seq<char>)>, key: Seq<char>, from: int) -> Option<
    int,
>
    decreases rows.len() - from,
{
    if from < 0 || from >= rows.len() {
        None
    } else if rows[from].0 == key {
        Some(from)
    } else {
        find_row(rows, key, from + 1)
    }
}

/// What the codename lookup returns: the `version` field of the first
/// row whose version equals the short key.  Note that it is the version
/// field, not the series field, that comes back.
pub open spec fn lookup_spec(rows: Seq<(Seq<char>, Seq<char>)>, release: Seq<char>) -> Option<
    Seq<char>,
> {
    match short_key(release) {
        None => None,
        Some(k) => match find_row(rows, k, 0) {
            None => None,
            Some(j) => Some(rows[j].0),
        },
    }
}

impl CodenameTable {
    /// Matches the release text against the version pattern, forms the
    /// short key (major and minor below major seven, the major alone from
    /// seven on) and returns the `version` field of the first row equal to
    /// it.
    pub fn lookup_codename(&self, release: &str) -> (r: Option<String>)
        ensures
            r.deep_view() == lookup_spec(rows_view(self.rows@), release@),
    {
        let n = release.unicode_len();
        let mut found: Option<usize> = None;
        let mut i: usize = 0;
        while i < n
            invariant_except_break
                i <= n,
                n == release@.len(),
                found is None,
                vmatch_from(release@, 0) == vmatch_from(release@, i as int),
            ensures
                n == release@.len(),
                match found {
                    None => vmatch_from(release@, 0) is None,
                    Some(f) => vmatch_from(release@, 0) == Some(f as int) && f < n && vmatch_at(
                        release@,
                        f as int,
                    ),
                },
            decreases n - i,
        {
            let mend = run_digits(release, i);
            let hit = is_digit_exec(release.get_char(i)) && mend < n && release.get_char(mend)
                == '.' && mend + 1 < n && is_digit_exec(release.get_char(mend + 1));
            if hit {
                found = Some(i);
                proof {
                    assert(vmatch_at(release@, i as int));
                }
                break ;
            } else {
                proof {
                    assert(!vmatch_at(release@, i as int));
                }
                i = i + 1;
            }
        }
        let start = match found {
            None => {
                return None;
            },
            Some(f) => f,
        };
        let mend = run_digits(release, start);
        proof {
            lemma_run_end(release@, start as int, |c: char| is_digit(c));
            assert(vmatch_at(release@, start as int));
        }
        let minor_end = run_digits(release, mend + 1);
        let ghost major = release@.subrange(start as int, mend as int);
        let ghost minor = release@.subrange(mend + 1, minor_end as int);
        proof {
            assert(all_digits_sub(release@, start as int, mend as int));
            assert(all_digits(major)) by {
                assert(forall|l: int|
                    0 <= l < major.len() ==> major[l] == #[trigger] release@[l + start]);
            }
        }
        // the canonical major: leading zeros stripped
        let mut z = start;
        while z < mend && release.get_char(z) == '0'
            invariant
                start <= z <= mend,
                mend <= release@.len(),
                n == release@.len(),
                forall|j: int| start <= j < z ==> release@[j] == '0',
            decreases mend - z,
        {
            z = z + 1;
        }
        proof {
            lemma_strip0(major);
            assert(strip0(major) =~= major.skip(z - start as int)) by {
                let sl = strip0(major).len() as int;
                if major.len() - sl < z - start {
                    assert(strip0(major)[0] == major[major.len() - sl]);
                    assert(release@[major.len() - sl + start] == '0');
                }
                if z - start < major.len() - sl {
                    assert(major[z - start as int] == '0');
                }
            }
        }
        let small: bool;
        if z == mend {
            proof {
                assert(strip0(major) =~= Seq::<char>::empty());
                assert(digits_val(major) == 0);
            }
            small = true;
        } else if mend - z == 1 {
            let d = release.get_char(z);
            small = (d as u32) < 0x37;
            proof {
                assert(strip0(major) =~= seq![release@[z as int]]);
                lemma_digits_val_single(release@[z as int]);
            }
        } else {
            small = false;
            proof {
                let canon = strip0(major);
                assert(canon[0] != '0');
                assert(all_digits(seq!['9'])) by {
                    assert(seq!['9'][0] == '9');
                }
                lemma_digits_val_single('9');
                lemma_digits_val_len(seq!['9'], canon);
                assert(digits_val(major) > 9);
            }
        }
        let canon_str: String = if z == mend {
            String::from_str("0")
        } else {
            String::from_str(release.substring_char(z, mend))
        };
        proof {
            reveal_strlit("0");
            assert(canon_str@ =~= canon_digits(major));
        }
        let key: String;
        if small {
            let mut k = canon_str;
            k.append(".");
            k.append(release.substring_char(mend + 1, minor_end));
            proof {
                reveal_strlit(".");
                assert(k@ =~= canon_digits(major) + seq!['.'] + minor);
            }
            key = k;
        } else {
            key = canon_str;
        }
        proof {
            assert(short_key(release@) == Some(key@));
        }
        // the first row whose version equals the key
        let ghost rows_v = rows_view(self.rows@);
        let nr = self.rows.len();
        let mut j: usize = 0;
        while j < nr
            invariant
                j <= nr,
                nr == self.rows@.len(),
                rows_v == rows_view(self.rows@),
                short_key(release@) == Some(key@),
                find_row(rows_v, key@, 0) == find_row(rows_v, key@, j as int),
            decreases nr - j,
        {
            proof {
                assert(rows_v[j as int] == self.rows@[j as int]@);
            }
            if str_eq(self.rows[j].version.as_str(), key.as_str()) {
                let out = Some(self.rows[j].version.clone());
                proof {
                    assert(out.deep_view() == lookup_spec(rows_v, release@));
                }
                return out;
            }
            j = j + 1;
        }
        None
    }
}

/// Every character in the range is a digit (a view of `lemma_run_end`).
pub open spec fn all_digits_sub(s: Seq<char>, from: int, to: int) -> bool {
    forall|j: int| from <= j < to ==> is_digit(#[trigger] s[j])
}

} // verus!
