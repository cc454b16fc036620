//! Character and string primitives shared by the parsers: finding a
//! character, trimming whitespace, splitting into lines or on a separator,
//! prefix tests, equality, and the lexicographic order used to sort the
//! module keys.

use vstd::prelude::*;
use vstd::string::StrSliceExecFns;
use vstd::string::StringExecFns;

verus! {

/// The Unicode `White_Space` code points, the set `char::is_whitespace`
/// recognises and `str::trim` strips.
pub open spec fn is_wspace(c: char) -> bool {
    let u = c as u32;
    (0x09 <= u && u <= 0x0d) || u == 0x20 || u == 0x85 || u == 0xa0 || u == 0x1680 || (0x2000 <= u
        && u <= 0x200a) || u == 0x2028 || u == 0x2029 || u == 0x202f || u == 0x205f || u == 0x3000
}

pub fn is_wspace_exec(c: char) -> (r: bool)
    ensures
        r == is_wspace(c),
{
    let u = c as u32;
    (0x09 <= u && u <= 0x0d) || u == 0x20 || u == 0x85 || u == 0xa0 || u == 0x1680 || (0x2000 <= u
        && u <= 0x200a) || u == 0x2028 || u == 0x2029 || u == 0x202f || u == 0x205f || u == 0x3000
}

/// Index of the first occurrence of `c` at or after `from`, if any.
pub open spec fn find_idx(s: Seq<char>, c: char, from: int) -> Option<int>
    decreases s.len() - from,
{
    if from < 0 || from >= s.len() {
        None
    } else if s[from] == c {
        Some(from)
    } else {
        find_idx(s, c, from + 1)
    }
}

pub proof fn lemma_find_idx(s: Seq<char>, c: char, from: int)
    requires
        0 <= from,
    ensures
        match find_idx(s, c, from) {
            Some(i) => from <= i < s.len() && s[i] == c && (forall|j: int|
                from <= j < i ==> s[j] != c),
            None => forall|j: int| from <= j < s.len() ==> s[j] != c,
        },
    decreases s.len() - from,
{
    if from < s.len() && s[from] != c {
        lemma_find_idx(s, c, from + 1);
    }
}

pub fn find_from(s: &str, from: usize, c: char) -> (r: Option<usize>)
    requires
        from <= s@.len(),
    ensures
        match r {
            Some(i) => find_idx(s@, c, from as int) == Some(i as int) && from <= i < s@.len(),
            None => find_idx(s@, c, from as int) is None,
        },
{
    let n = s.unicode_len();
    let mut i = from;
    while i < n
        invariant
            from <= i <= n,
            n == s@.len(),
            forall|j: int| from <= j < i ==> s@[j] != c,
        decreases n - i,
    {
        if s.get_char(i) == c {
            proof {
                lemma_find_idx(s@, c, from as int);
            }
            return Some(i);
        }
        i = i + 1;
    }
    proof {
        lemma_find_idx(s@, c, from as int);
    }
    None
}

/// First index at or after `from` that fails `pred`, so that
/// `[from, run_end)` is the maximal run of characters satisfying it.
pub open spec fn run_end(s: Seq<char>, from: int, pred: spec_fn(char) -> bool) -> int
    decreases s.len() - from,
{
    if from < 0 || from >= s.len() {
        s.len() as int
    } else if pred(s[from]) {
        run_end(s, from + 1, pred)
    } else {
        from
    }
}

pub proof fn lemma_run_end(s: Seq<char>, from: int, pred: spec_fn(char) -> bool)
    requires
        0 <= from <= s.len(),
    ensures
        from <= run_end(s, from, pred) <= s.len(),
        forall|j: int| from <= j < run_end(s, from, pred) ==> pred(s[j]),
        run_end(s, from, pred) < s.len() ==> !pred(s[run_end(s, from, pred)]),
    decreases s.len() - from,
{
    if from < s.len() && pred(s[from]) {
        lemma_run_end(s, from + 1, pred);
    }
}

/// The value of `run_end` is pinned by the run property alone.
pub proof fn lemma_run_end_unique(s: Seq<char>, from: int, pred: spec_fn(char) -> bool, e: int)
    requires
        0 <= from <= e <= s.len(),
        forall|j: int| from <= j < e ==> pred(s[j]),
        e < s.len() ==> !pred(s[e]),
    ensures
        run_end(s, from, pred) == e,
    decreases s.len() - from,
{
    if from < s.len() && pred(s[from]) {
        lemma_run_end_unique(s, from + 1, pred, if e == from { from + 1 } else { e });
    }
}

/// Equality of two string slices, decided character by character.
pub fn str_eq(a: &str, b: &str) -> (r: bool)
    ensures
        r == (a@ == b@),
{
    let na = a.unicode_len();
    let nb = b.unicode_len();
    if na != nb {
        return false;
    }
    let mut i: usize = 0;
    while i < na
        invariant
            i <= na,
            na == a@.len(),
            na == b@.len(),
            forall|j: int| 0 <= j < i ==> a@[j] == b@[j],
        decreases na - i,
    {
        if a.get_char(i) != b.get_char(i) {
            return false;
        }
        i = i + 1;
    }
    proof {
        assert(a@ =~= b@);
    }
    true
}

pub open spec fn is_prefix_of(p: Seq<char>, s: Seq<char>) -> bool {
    p.len() <= s.len() && forall|i: int| 0 <= i < p.len() ==> s[i] == p[i]
}

pub fn starts_with(s: &str, p: &str) -> (r: bool)
    ensures
        r == is_prefix_of(p@, s@),
{
    let np = p.unicode_len();
    if np > s.unicode_len() {
        return false;
    }
    let mut i: usize = 0;
    while i < np
        invariant
            i <= np,
            np == p@.len(),
            np <= s@.len(),
            forall|j: int| 0 <= j < i ==> s@[j] == p@[j],
        decreases np - i,
    {
        if s.get_char(i) != p.get_char(i) {
            return false;
        }
        i = i + 1;
    }
    true
}

/// Index of the first character not skipped by `str::trim` at the front.
pub open spec fn trim_start(s: Seq<char>) -> int {
    run_end(s, 0, |c: char| is_wspace(c))
}

/// One past the last character kept by `str::trim` at the back.
pub open spec fn trim_end(s: Seq<char>, till: int) -> int
    decreases till,
{
    if till <= 0 {
        0
    } else if is_wspace(s[till - 1]) {
        trim_end(s, till - 1)
    } else {
        till
    }
}

pub proof fn lemma_trim_end(s: Seq<char>, till: int)
    requires
        0 <= till <= s.len(),
    ensures
        0 <= trim_end(s, till) <= till,
        forall|j: int| trim_end(s, till) <= j < till ==> is_wspace(s[j]),
        trim_end(s, till) > 0 ==> !is_wspace(s[trim_end(s, till) - 1]),
    decreases till,
{
    if till > 0 && is_wspace(s[till - 1]) {
        lemma_trim_end(s, till - 1);
    }
}

/// What `str::trim` returns: the slice between the leading and trailing
/// whitespace runs, or empty when the text is all whitespace.
pub open spec fn trim_spec(s: Seq<char>) -> Seq<char> {
    let a = trim_start(s);
    let b = trim_end(s, s.len() as int);
    if a <= b {
        s.subrange(a, b)
    } else {
        Seq::empty()
    }
}

pub fn trim(s: &str) -> (r: &str)
    ensures
        r@ == trim_spec(s@),
{
    let n = s.unicode_len();
    let mut a: usize = 0;
    while a < n && is_wspace_exec(s.get_char(a))
        invariant
            a <= n,
            n == s@.len(),
            forall|j: int| 0 <= j < a ==> is_wspace(s@[j]),
        decreases n - a,
    {
        a = a + 1;
    }
    proof {
        lemma_run_end_unique(s@, 0, |c: char| is_wspace(c), a as int);
    }
    let mut b: usize = n;
    while b > a && is_wspace_exec(s.get_char(b - 1))
        invariant
            a <= b <= n,
            n == s@.len(),
            forall|j: int| b <= j < n ==> is_wspace(s@[j]),
        decreases b,
    {
        b = b - 1;
    }
    proof {
        lemma_trim_end(s@, s@.len() as int);
        let bs = trim_end(s@, s@.len() as int);
        if a < n {
            // both b and the spec's end lie in [a+1, n] and satisfy the same
            // characterization, so they coincide
            assert(!is_wspace(s@[a as int]));
            assert(bs > a) by {
                if bs <= a {
                    assert(is_wspace(s@[a as int]));
                }
            }
            assert(b > a);
            assert(!is_wspace(s@[b - 1]));
            if bs < b {
                assert(is_wspace(s@[b - 1]));
            }
            if b < bs {
                assert(is_wspace(s@[bs - 1]));
            }
            assert(b == bs);
        } else {
            // the whole string is whitespace, so the spec end must be 0
            assert(a == n && b == n);
            if bs > 0 {
                assert(is_wspace(s@[bs - 1]));
                assert(!is_wspace(s@[bs - 1]));
            }
        }
    }
    let r = s.substring_char(a, b);
    proof {
        assert(r@ =~= trim_spec(s@));
    }
    r
}

/// A line as produced by `str::lines`: the text up to the next newline,
/// with one trailing carriage return removed.
pub open spec fn strip_cr(l: Seq<char>) -> Seq<char> {
    if l.len() > 0 && l.last() == '\r' {
        l.drop_last()
    } else {
        l
    }
}

/// The lines of `s[from..]` in the sense of `str::lines`: pieces separated
/// by `'\n'`, each with a trailing `'\r'` removed, and no empty piece after
/// a final newline.
pub open spec fn lines_from(s: Seq<char>, from: int) -> Seq<Seq<char>>
    decreases s.len() - from,
{
    if from < 0 || from >= s.len() {
        Seq::empty()
    } else {
        match find_idx(s, '\n', from) {
            None => seq![strip_cr(s.subrange(from, s.len() as int))],
            Some(i) => if from <= i < s.len() {
                seq![strip_cr(s.subrange(from, i))] + lines_from(s, i + 1)
            } else {
                Seq::empty()
            },
        }
    }
}

pub open spec fn spec_lines(s: Seq<char>) -> Seq<Seq<char>> {
    lines_from(s, 0)
}

pub fn split_lines(s: &str) -> (r: Vec<String>)
    ensures
        r.deep_view() == spec_lines(s@),
{
    let n = s.unicode_len();
    let mut r: Vec<String> = Vec::new();
    let mut from: usize = 0;
    while from < n
        invariant_except_break
            from <= n,
            n == s@.len(),
            r.deep_view() + lines_from(s@, from as int) =~= spec_lines(s@),
        ensures
            r.deep_view() =~= spec_lines(s@),
        decreases n - from,
    {
        proof {
            lemma_find_idx(s@, '\n', from as int);
        }
        let found = find_from(s, from, '\n');
        let line_end = match found {
            Some(i) => i,
            None => n,
        };
        let mut end = line_end;
        if end > from && s.get_char(end - 1) == '\r' {
            end = end - 1;
        }
        let piece = String::from_str(s.substring_char(from, end));
        let ghost prev = r.deep_view();
        proof {
            assert(piece@ =~= strip_cr(s@.subrange(from as int, line_end as int)));
        }
        r.push(piece);
        proof {
            assert(r.deep_view() =~= prev.push(piece@));
        }
        match found {
            Some(i) => {
                proof {
                    assert(lines_from(s@, from as int) =~= seq![piece@] + lines_from(
                        s@,
                        i + 1,
                    ));
                    assert(prev.push(piece@) + lines_from(s@, i + 1) =~= prev + (seq![piece@]
                        + lines_from(s@, i + 1)));
                }
                from = i + 1;
            },
            None => {
                proof {
                    assert(lines_from(s@, from as int) =~= seq![piece@]);
                    assert(prev.push(piece@) =~= prev + seq![piece@]);
                    assert(r.deep_view() =~= spec_lines(s@));
                }
                break ;
            },
        }
    }
    proof {
        assert(r.deep_view() =~= spec_lines(s@));
    }
    r
}

/// The pieces of `s[from..]` separated by `c`, in the sense of
/// `str::split`: empty pieces are kept, and an empty input yields one
/// empty piece.
pub open spec fn split_from(s: Seq<char>, c: char, from: int) -> Seq<Seq<char>>
    decreases s.len() - from,
{
    if from < 0 || from > s.len() {
        Seq::empty()
    } else {
        match find_idx(s, c, from) {
            None => seq![s.subrange(from, s.len() as int)],
            Some(i) => if from <= i < s.len() {
                seq![s.subrange(from, i)] + split_from(s, c, i + 1)
            } else {
                Seq::empty()
            },
        }
    }
}

pub open spec fn spec_split(s: Seq<char>, c: char) -> Seq<Seq<char>> {
    split_from(s, c, 0)
}

pub fn split_all(s: &str, c: char) -> (r: Vec<String>)
    ensures
        r.deep_view() == spec_split(s@, c),
{
    let n = s.unicode_len();
    let mut r: Vec<String> = Vec::new();
    let mut from: usize = 0;
    loop
        invariant_except_break
            from <= n,
            n == s@.len(),
            r.deep_view() + split_from(s@, c, from as int) =~= spec_split(s@, c),
        ensures
            r.deep_view() =~= spec_split(s@, c),
        decreases n - from,
    {
        proof {
            lemma_find_idx(s@, c, from as int);
        }
        let found = find_from(s, from, c);
        let piece_end = match found {
            Some(i) => i,
            None => n,
        };
        let piece = String::from_str(s.substring_char(from, piece_end));
        let ghost prev = r.deep_view();
        r.push(piece);
        proof {
            assert(r.deep_view() =~= prev.push(piece@));
        }
        match found {
            Some(i) => {
                proof {
                    assert(split_from(s@, c, from as int) =~= seq![piece@] + split_from(
                        s@,
                        c,
                        i + 1,
                    ));
                    assert(prev.push(piece@) + split_from(s@, c, i + 1) =~= prev + (seq![piece@]
                        + split_from(s@, c, i + 1)));
                }
                from = i + 1;
            },
            None => {
                proof {
                    assert(split_from(s@, c, from as int) =~= seq![piece@]);
                    assert(prev.push(piece@) =~= prev + seq![piece@]);
                }
                break ;
            },
        }
    }
    r
}

/// Strict lexicographic order on the characters from index `i` on, by
/// Unicode scalar value; a proper prefix sorts first.  On ASCII text this
/// is the order `String` sorting uses.
pub open spec fn lex_lt_from(a: Seq<char>, b: Seq<char>, i: int) -> bool
    decreases b.len() - i,
{
    if i < 0 || i >= b.len() {
        false
    } else if i >= a.len() {
        true
    } else if (a[i] as u32) < (b[i] as u32) {
        true
    } else if (a[i] as u32) == (b[i] as u32) {
        lex_lt_from(a, b, i + 1)
    } else {
        false
    }
}

pub open spec fn lex_lt(a: Seq<char>, b: Seq<char>) -> bool {
    lex_lt_from(a, b, 0)
}

/// Two characters with the same scalar value are the same character.
pub proof fn lemma_char_cast_inj(a: char, b: char)
    requires
        a as u32 == b as u32,
    ensures
        a == b,
{
    vstd::utf8::char_u32_cast(a, a as u32);
    vstd::utf8::char_u32_cast(b, b as u32);
}

/// The order is total: two sequences that agree before `i` are related one
/// way, the other, or are equal.
pub proof fn lemma_lex_total_from(a: Seq<char>, b: Seq<char>, i: int)
    requires
        0 <= i <= a.len(),
        i <= b.len(),
    ensures
        lex_lt_from(a, b, i) || lex_lt_from(b, a, i) || (a.len() == b.len() && forall|j: int|
            i <= j < a.len() ==> a[j] == b[j]),
    decreases a.len() - i,
{
    if i < a.len() && i < b.len() && (a[i] as u32) == (b[i] as u32) {
        lemma_char_cast_inj(a[i], b[i]);
        lemma_lex_total_from(a, b, i + 1);
    }
}

pub proof fn lemma_lex_total(a: Seq<char>, b: Seq<char>)
    ensures
        lex_lt(a, b) || lex_lt(b, a) || a == b,
{
    lemma_lex_total_from(a, b, 0);
    if !lex_lt(a, b) && !lex_lt(b, a) {
        assert(a =~= b);
    }
}

/// The relation from an index only depends on the characters from the
/// first disagreement on.
pub proof fn lemma_lex_from_eq(a: Seq<char>, b: Seq<char>, i: int, j: int)
    requires
        0 <= i <= j,
        j <= a.len(),
        j <= b.len(),
        forall|l: int| i <= l < j ==> (a[l] as u32) == (#[trigger] b[l] as u32),
    ensures
        lex_lt_from(a, b, i) == lex_lt_from(a, b, j),
    decreases j - i,
{
    if i < j {
        lemma_lex_from_eq(a, b, i + 1, j);
    }
}

pub proof fn lemma_lex_trans_from(a: Seq<char>, b: Seq<char>, c: Seq<char>, i: int)
    requires
        0 <= i,
        lex_lt_from(a, b, i),
        lex_lt_from(b, c, i),
    ensures
        lex_lt_from(a, c, i),
    decreases c.len() - i,
{
    if i < a.len() && i < b.len() && i < c.len() && (a[i] as u32) == (b[i] as u32) && (b[i] as u32)
        == (c[i] as u32) {
        lemma_lex_trans_from(a, b, c, i + 1);
    }
}

pub fn lex_lt_exec(a: &str, b: &str) -> (r: bool)
    ensures
        r == lex_lt(a@, b@),
{
    let na = a.unicode_len();
    let nb = b.unicode_len();
    let mut i: usize = 0;
    loop
        invariant_except_break
            i <= na,
            i <= nb,
            na == a@.len(),
            nb == b@.len(),
            lex_lt(a@, b@) == lex_lt_from(a@, b@, i as int),
        ensures
            (i <= na && i <= nb) && lex_lt(a@, b@) == lex_lt_from(a@, b@, i as int) && (i >= na || i
                >= nb || a@[i as int] != b@[i as int]),
        decreases nb - i,
    {
        if i >= na || i >= nb {
            break ;
        }
        let ca = a.get_char(i);
        let cb = b.get_char(i);
        if ca != cb {
            break ;
        }
        i = i + 1;
    }
    if i >= nb {
        false
    } else if i >= na {
        true
    } else {
        (a.get_char(i) as u32) < (b.get_char(i) as u32)
    }
}

/// Sorted strictly ascending in the lexicographic order, so also free of
/// duplicates.
pub open spec fn strictly_sorted(s: Seq<Seq<char>>) -> bool {
    forall|i: int, j: int| 0 <= i < j < s.len() ==> lex_lt(s[i], s[j])
}

/// Puts `s` at its place in a strictly sorted vector, dropping it when it
/// is already there.
pub fn insert_sorted(v: &mut Vec<String>, s: String)
    requires
        strictly_sorted(old(v).deep_view()),
    ensures
        strictly_sorted(final(v).deep_view()),
        forall|x: Seq<char>|
            final(v).deep_view().contains(x) == (old(v).deep_view().contains(x) || x == s@),
{
    let n = v.len();
    let mut i: usize = 0;
    while i < n && lex_lt_exec(v[i].as_str(), s.as_str())
        invariant
            i <= n,
            n == v.len(),
            forall|j: int| 0 <= j < i ==> lex_lt(v.deep_view()[j], s@),
        decreases n - i,
    {
        i = i + 1;
    }
    let ghost dv = v.deep_view();
    if i < n && str_eq(v[i].as_str(), s.as_str()) {
        proof {
            assert(dv.contains(dv[i as int]));
        }
        return ;
    }
    proof {
        // everything at or after position i sorts strictly after s
        assert forall|j: int| i <= j < n implies lex_lt(s@, dv[j]) by {
            lemma_lex_total(dv[i as int], s@);
            assert(!lex_lt(dv[i as int], s@));
            assert(dv[i as int] != s@);
            if j > i {
                assert(lex_lt(dv[i as int], dv[j]));
                lemma_lex_trans_from(s@, dv[i as int], dv[j], 0);
            }
        }
    }
    v.insert(i, s);
    proof {
        assert(v.deep_view() =~= dv.insert(i as int, s@));
        dv.insert_ensures(i as int, s@);
        assert forall|p: int, q: int|
            0 <= p < q < v.deep_view().len() implies lex_lt(
            v.deep_view()[p],
            v.deep_view()[q],
        ) by {
            let nv = v.deep_view();
            if q < i {
                assert(nv[p] == dv[p] && nv[q] == dv[q]);
            } else if p > i {
                assert(nv[p] == dv[p - 1] && nv[q] == dv[q - 1]);
            } else if p < i && q == i {
                assert(nv[p] == dv[p] && nv[q] == s@);
            } else if p == i {
                assert(nv[p] == s@ && nv[q] == dv[q - 1]);
            } else {
                assert(p < i && q > i);
                assert(nv[p] == dv[p] && nv[q] == dv[q - 1]);
                lemma_lex_trans_from(dv[p], s@, dv[q - 1], 0);
            }
        }
        assert forall|x: Seq<char>|
            v.deep_view().contains(x) == (dv.contains(x) || x == s@) by {
            let nv = v.deep_view();
            if dv.contains(x) {
                let j = choose|j: int| 0 <= j < dv.len() && dv[j] == x;
                if j < i {
                    assert(nv[j] == x);
                } else {
                    assert(nv[j + 1] == x);
                }
            }
            if x == s@ {
                assert(nv[i as int] == x);
            }
            if nv.contains(x) {
                let j = choose|j: int| 0 <= j < nv.len() && nv[j] == x;
                if j < i {
                    assert(dv[j] == x);
                } else if j == i {
                } else {
                    assert(dv[j - 1] == x);
                }
            }
        }
    }
}

/// Index of the first occurrence of the two-character separator `a``b` at
/// or after `from`, if any.
pub open spec fn find_pair_idx(s: Seq<char>, a: char, b: char, from: int) -> Option<int>
    decreases s.len() - from,
{
    if from < 0 || from + 1 >= s.len() {
        None
    } else if s[from] == a && s[from + 1] == b {
        Some(from)
    } else {
        find_pair_idx(s, a, b, from + 1)
    }
}

pub fn find_pair(s: &str, a: char, b: char) -> (r: Option<usize>)
    ensures
        match r {
            Some(i) => find_pair_idx(s@, a, b, 0) == Some(i as int) && i + 1 < s@.len(),
            None => find_pair_idx(s@, a, b, 0) is None,
        },
{
    let n = s.unicode_len();
    if n < 2 {
        proof {
            lemma_find_pair_none(s@, a, b, 0);
        }
        return None;
    }
    let mut i: usize = 0;
    while i < n - 1
        invariant
            i <= n,
            n == s@.len(),
            n >= 2,
            find_pair_idx(s@, a, b, 0) == find_pair_idx(s@, a, b, i as int),
        decreases n - i,
    {
        if s.get_char(i) == a && s.get_char(i + 1) == b {
            return Some(i);
        }
        i = i + 1;
    }
    None
}

proof fn lemma_find_pair_none(s: Seq<char>, a: char, b: char, from: int)
    requires
        from + 1 >= s.len(),
        from >= 0,
    ensures
        find_pair_idx(s, a, b, from) is None,
{
}

pub open spec fn is_suffix_of(p: Seq<char>, s: Seq<char>) -> bool {
    p.len() <= s.len() && forall|i: int|
        0 <= i < p.len() ==> s[s.len() - p.len() + i] == p[i]
}

pub fn ends_with(s: &str, p: &str) -> (r: bool)
    ensures
        r == is_suffix_of(p@, s@),
{
    let np = p.unicode_len();
    let ns = s.unicode_len();
    if np > ns {
        return false;
    }
    let off = ns - np;
    let mut i: usize = 0;
    while i < np
        invariant
            i <= np,
            np == p@.len(),
            ns == s@.len(),
            np <= ns,
            off == ns - np,
            forall|j: int| 0 <= j < i ==> s@[off + j] == p@[j],
        decreases np - i,
    {
        if s.get_char(off + i) != p.get_char(i) {
            return false;
        }
        i = i + 1;
    }
    true
}

} // verus!
