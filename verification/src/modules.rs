//! The LSB module detector's parsing half: each line of the package
//! query's report carries a package version and its provides list; every
//! provides item of the form `lsb-<module>-<arch>`, optionally with an
//! explicit `(= <version>)`, becomes one key per satisfied specification
//! version.  The keys are returned deduplicated in ascending order.

use vstd::prelude::*;
use vstd::string::StrSliceExecFns;
use vstd::string::StringExecFns;
use crate::strutil::{
    spec_lines, split_lines, spec_split, split_all, find_idx, find_from, run_end, lemma_run_end,
    lemma_run_end_unique, strictly_sorted, insert_sorted,
};
use crate::numdec::is_digit;
use crate::compat::{valid_lsb_versions, spec_valid_lsb_versions};

verus! {

/// A module name character: a lowercase letter or a digit.
pub open spec fn is_modchar(c: char) -> bool {
    (0x61 <= (c as u32) && (c as u32) <= 0x7a) || is_digit(c)
}

pub open spec fn is_nonspace(c: char) -> bool {
    c != ' '
}

/// A version character inside an explicit `(= ...)`: a digit or a dot.
pub open spec fn is_verchar(c: char) -> bool {
    is_digit(c) || c == '.'
}

fn is_modchar_exec(c: char) -> (r: bool)
    ensures
        r == is_modchar(c),
{
    let u = c as u32;
    (0x61 <= u && u <= 0x7a) || (0x30 <= u && u <= 0x39)
}

fn is_verchar_exec(c: char) -> (r: bool)
    ensures
        r == is_verchar(c),
{
    let u = c as u32;
    (0x30 <= u && u <= 0x39) || c == '.'
}

fn run_modchar(s: &str, from: usize) -> (r: usize)
    requires
        from <= s@.len(),
    ensures
        r == run_end(s@, from as int, |c: char| is_modchar(c)),
        from <= r <= s@.len(),
{
    let n = s.unicode_len();
    let mut i = from;
    while i < n && is_modchar_exec(s.get_char(i))
        invariant
            from <= i <= n,
            n == s@.len(),
            forall|j: int| from <= j < i ==> is_modchar(#[trigger] s@[j]),
        decreases n - i,
    {
        i = i + 1;
    }
    proof {
        lemma_run_end_unique(s@, from as int, |c: char| is_modchar(c), i as int);
    }
    i
}

fn run_nonspace(s: &str, from: usize) -> (r: usize)
    requires
        from <= s@.len(),
    ensures
        r == run_end(s@, from as int, |c: char| is_nonspace(c)),
        from <= r <= s@.len(),
{
    let n = s.unicode_len();
    let mut i = from;
    while i < n && s.get_char(i) != ' '
        invariant
            from <= i <= n,
            n == s@.len(),
            forall|j: int| from <= j < i ==> is_nonspace(#[trigger] s@[j]),
        decreases n - i,
    {
        i = i + 1;
    }
    proof {
        lemma_run_end_unique(s@, from as int, |c: char| is_nonspace(c), i as int);
    }
    i
}

fn run_verchar(s: &str, from: usize) -> (r: usize)
    requires
        from <= s@.len(),
    ensures
        r == run_end(s@, from as int, |c: char| is_verchar(c)),
        from <= r <= s@.len(),
{
    let n = s.unicode_len();
    let mut i = from;
    while i < n && is_verchar_exec(s.get_char(i))
        invariant
            from <= i <= n,
            n == s@.len(),
            forall|j: int| from <= j < i ==> is_verchar(#[trigger] s@[j]),
        decreases n - i,
    {
        i = i + 1;
    }
    proof {
        lemma_run_end_unique(s@, from as int, |c: char| is_verchar(c), i as int);
    }
    i
}

/// The package version with its packaging revision cut off: the text
/// before the first `-` when one occurs, else before the first `+`, else
/// before the first `~`, else the text whole.
pub open spec fn normalize_version(v: Seq<char>) -> Seq<char> {
    match find_idx(v, '-', 0) {
        Some(i) => v.take(i),
        None => match find_idx(v, '+', 0) {
            Some(i) => v.take(i),
            None => match find_idx(v, '~', 0) {
                Some(i) => v.take(i),
                None => v,
            },
        },
    }
}

/// Whether the provides pattern matches at position `i`: the literal
/// `lsb-`, a nonempty run of module characters, a `-`, and a nonempty run
/// of non-space characters.
pub open spec fn pmatch_at(s: Seq<char>, i: int) -> bool {
    &&& 0 <= i
    &&& i + 4 <= s.len()
    &&& s[i] == 'l'
    &&& s[i + 1] == 's'
    &&& s[i + 2] == 'b'
    &&& s[i + 3] == '-'
    &&& ({
        let m1 = run_end(s, i + 4, |c: char| is_modchar(c));
        &&& m1 > i + 4
        &&& m1 < s.len()
        &&& s[m1] == '-'
        &&& run_end(s, m1 + 1, |c: char| is_nonspace(c)) > m1 + 1
    })
}

pub open spec fn pmatch_from(s: Seq<char>, from: int) -> Option<int>
    decreases s.len() - from,
{
    if from < 0 || from >= s.len() {
        None
    } else if pmatch_at(s, from) {
        Some(from)
    } else {
        pmatch_from(s, from + 1)
    }
}

/// The explicit version captured after the architecture run, when the
/// whole ` (= <version>)` tail is present.
pub open spec fn pversion(s: Seq<char>, a1: int) -> Option<Seq<char>> {
    if a1 + 4 <= s.len() && s[a1] == ' ' && s[a1 + 1] == '(' && s[a1 + 2] == '=' && s[a1 + 3]
        == ' ' {
        let v1 = run_end(s, a1 + 4, |c: char| is_verchar(c));
        if v1 > a1 + 4 && v1 < s.len() && s[v1] == ')' {
            Some(s.subrange(a1 + 4, v1))
        } else {
            None
        }
    } else {
        None
    }
}

/// The exact form of an emitted key.
pub open spec fn key_of(module: Seq<char>, ver: Seq<char>, arch: Seq<char>) -> Seq<char> {
    module + "s-"@ + ver + "s-"@ + arch + "s"@
}

/// One key per expanded specification version.
pub open spec fn versions_key_set(module: Seq<char>, arch: Seq<char>, vs: Seq<Seq<char>>) -> Set<
    Seq<char>,
>
    decreases vs.len(),
{
    if vs.len() == 0 {
        Set::empty()
    } else {
        versions_key_set(module, arch, vs.drop_last()).insert(key_of(module, vs.last(), arch))
    }
}

/// The keys one provides item emits: none without a pattern match; the
/// single explicitly versioned key when the version tail is present; one
/// key per compatible specification version otherwise.
pub open spec fn keys_of_item(version: Seq<char>, item: Seq<char>) -> Set<Seq<char>> {
    match pmatch_from(item, 0) {
        None => Set::empty(),
        Some(i) => {
            let m1 = run_end(item, i + 4, |c: char| is_modchar(c));
            let module = item.subrange(i + 4, m1);
            let a1 = run_end(item, m1 + 1, |c: char| is_nonspace(c));
            let arch = item.subrange(m1 + 1, a1);
            match pversion(item, a1) {
                Some(ver) => Set::empty().insert(key_of(module, ver, arch)),
                None => versions_key_set(module, arch, spec_valid_lsb_versions(version, module)),
            }
        },
    }
}

pub open spec fn keys_of_items(version: Seq<char>, items: Seq<Seq<char>>) -> Set<Seq<char>>
    decreases items.len(),
{
    if items.len() == 0 {
        Set::empty()
    } else {
        keys_of_items(version, items.drop_last()).union(keys_of_item(version, items.last()))
    }
}

/// The keys one report line emits: empty lines and lines without a space
/// emit none; otherwise the text before the first space is the raw
/// version and the rest the comma-separated provides list.
pub open spec fn keys_of_line(line: Seq<char>) -> Set<Seq<char>> {
    if line.len() == 0 {
        Set::empty()
    } else {
        match find_idx(line, ' ', 0) {
            None => Set::empty(),
            Some(sp) => keys_of_items(
                normalize_version(line.take(sp)),
                spec_split(line.skip(sp + 1), ','),
            ),
        }
    }
}

pub open spec fn module_keys_lines(lines: Seq<Seq<char>>) -> Set<Seq<char>>
    decreases lines.len(),
{
    if lines.len() == 0 {
        Set::empty()
    } else {
        module_keys_lines(lines.drop_last()).union(keys_of_line(lines.last()))
    }
}

/// Every key the whole report emits.
pub open spec fn module_keys(text: Seq<char>) -> Set<Seq<char>> {
    module_keys_lines(spec_lines(text))
}

/// Parses the package query's captured report into the LSB module keys,
/// deduplicated and in ascending lexicographic order.  A missing report
/// (the command could not run) and an empty one both mean that no LSB
/// modules are available, as does a report that emits no keys.
pub fn lsb_version(output: Option<&str>) -> (r: Option<Vec<String>>)
    ensures
        match output {
            None => r is None,
            Some(t) => {
                if t@.len() == 0 {
                    r is None
                } else {
                    match r {
                        None => forall|x: Seq<char>| !module_keys(t@).contains(x),
                        Some(v) => v@.len() > 0 && strictly_sorted(v.deep_view()) && (forall|x: Seq<char>|
                            v.deep_view().contains(x) == module_keys(t@).contains(x)),
                    }
                }
            },
        },
{
    let text = match output {
        None => {
            return None;
        },
        Some(t) => t,
    };
    if text.unicode_len() == 0 {
        return None;
    }
    let lines = split_lines(text);
    let ghost lines_v = spec_lines(text@);
    let mut acc: Vec<String> = Vec::new();
    proof {
        assert(lines_v.take(0) =~= Seq::<Seq<char>>::empty());
        assert(forall|x: Seq<char>| !module_keys_lines(lines_v.take(0)).contains(x));
    }
    let n = lines.len();
    let mut i: usize = 0;
    while i < n
        invariant
            i <= n,
            n == lines.deep_view().len(),
            lines.deep_view() == lines_v,
            strictly_sorted(acc.deep_view()),
            forall|x: Seq<char>|
                acc.deep_view().contains(x) == module_keys_lines(lines_v.take(i as int)).contains(
                    x,
                ),
        decreases n - i,
    {
        let line: &str = lines[i].as_str();
        proof {
            assert(line@ == lines_v[i as int]);
            assert(lines_v.take(i + 1).last() == lines_v[i as int]);
            assert(lines_v.take(i + 1).drop_last() =~= lines_v.take(i as int));
        }
        let ln = line.unicode_len();
        if ln > 0 {
            match find_from(line, 0, ' ') {
                None => {
                },
                Some(sp) => {
                    let rawver = line.substring_char(0, sp);
                    let provides = line.substring_char(sp + 1, ln);
                    proof {
                        assert(rawver@ =~= line@.take(sp as int));
                        assert(provides@ =~= line@.skip(sp + 1));
                    }
                    // cut the packaging revision off the version
                    let version: &str = match find_from(rawver, 0, '-') {
                        Some(d) => rawver.substring_char(0, d),
                        None => match find_from(rawver, 0, '+') {
                            Some(d) => rawver.substring_char(0, d),
                            None => match find_from(rawver, 0, '~') {
                                Some(d) => rawver.substring_char(0, d),
                                None => rawver,
                            },
                        },
                    };
                    proof {
                        assert(version@ =~= normalize_version(rawver@));
                    }
                    let items = split_all(provides, ',');
                    let ghost items_v = spec_split(provides@, ',');
                    proof {
                        assert(items_v.take(0) =~= Seq::<Seq<char>>::empty());
                    }
                    let ghost base = module_keys_lines(lines_v.take(i as int));
                    let m = items.len();
                    let mut j: usize = 0;
                    while j < m
                        invariant
                            j <= m,
                            m == items.deep_view().len(),
                            items.deep_view() == items_v,
                            strictly_sorted(acc.deep_view()),
                            forall|x: Seq<char>|
                                acc.deep_view().contains(x) == base.union(
                                    keys_of_items(version@, items_v.take(j as int)),
                                ).contains(x),
                        decreases m - j,
                    {
                        let item: &str = items[j].as_str();
                        proof {
                            assert(item@ == items_v[j as int]);
                            assert(items_v.take(j + 1).last() == items_v[j as int]);
                            assert(items_v.take(j + 1).drop_last() =~= items_v.take(j as int));
                        }
                        add_item_keys(&mut acc, version, item);
                        j = j + 1;
                    }
                    proof {
                        assert(items_v.take(m as int) =~= items_v);
                        assert(keys_of_line(lines_v[i as int]) == keys_of_items(
                            version@,
                            items_v,
                        ));
                    }
                },
            }
        }
        proof {
            assert(module_keys_lines(lines_v.take(i + 1)) == module_keys_lines(
                lines_v.take(i as int),
            ).union(keys_of_line(lines_v[i as int])));
        }
        i = i + 1;
    }
    proof {
        assert(lines_v.take(n as int) =~= lines_v);
        assert forall|x: Seq<char>|
            acc.deep_view().contains(x) == module_keys(text@).contains(x) by {
            assert(acc.deep_view().contains(x) == module_keys_lines(
                lines_v.take(n as int),
            ).contains(x));
        }
    }
    if acc.len() == 0 {
        proof {
            assert(acc.deep_view().len() == 0);
            assert forall|x: Seq<char>| !module_keys(text@).contains(x) by {
                assert(!acc.deep_view().contains(x));
            }
        }
        None
    } else {
        Some(acc)
    }
}

/// Adds the keys of one provides item to the sorted accumulator.
fn add_item_keys(acc: &mut Vec<String>, version: &str, item: &str)
    requires
        strictly_sorted(old(acc).deep_view()),
    ensures
        strictly_sorted(final(acc).deep_view()),
        forall|x: Seq<char>|
            final(acc).deep_view().contains(x) == (old(acc).deep_view().contains(x)
                || keys_of_item(version@, item@).contains(x)),
{
    let n = item.unicode_len();
    let mut at: Option<usize> = None;
    let mut i: usize = 0;
    while i < n
        invariant_except_break
            i <= n,
            n == item@.len(),
            at is None,
            acc == old(acc),
            pmatch_from(item@, 0) == pmatch_from(item@, i as int),
        ensures
            n == item@.len(),
            acc == old(acc),
            match at {
                None => pmatch_from(item@, 0) is None,
                Some(f) => pmatch_from(item@, 0) == Some(f as int) && pmatch_at(item@, f as int),
            },
        decreases n - i,
    {
        let mut hit = n - i >= 4 && item.get_char(i) == 'l' && item.get_char(i + 1) == 's'
            && item.get_char(i + 2) == 'b' && item.get_char(i + 3) == '-';
        if hit {
            let m1 = run_modchar(item, i + 4);
            hit = m1 > i + 4 && m1 < n && item.get_char(m1) == '-' && run_nonspace(item, m1 + 1)
                > m1 + 1;
        }
        if hit {
            at = Some(i);
            proof {
                assert(pmatch_at(item@, i as int));
            }
            break ;
        }
        proof {
            assert(!pmatch_at(item@, i as int));
        }
        i = i + 1;
    }
    let start = match at {
        None => {
            proof {
                broadcast use vstd::set::group_set_axioms;

                assert(keys_of_item(version@, item@) =~= Set::<Seq<char>>::empty());
            }
            return ;
        },
        Some(f) => f,
    };
    proof {
        lemma_run_end(item@, start + 4, |c: char| is_modchar(c));
    }
    let m1 = run_modchar(item, start + 4);
    let module = item.substring_char(start + 4, m1);
    let a1 = run_nonspace(item, m1 + 1);
    let arch = item.substring_char(m1 + 1, a1);
    proof {
        assert(module@ =~= item@.subrange(start + 4, m1 as int));
        assert(arch@ =~= item@.subrange(m1 + 1, a1 as int));
    }
    // the optional explicit version tail
    let mut explicit: Option<&str> = None;
    if n - a1 >= 4 && item.get_char(a1) == ' ' && item.get_char(a1 + 1) == '(' && item.get_char(
        a1 + 2,
    ) == '=' && item.get_char(a1 + 3) == ' ' {
        let v1 = run_verchar(item, a1 + 4);
        if v1 > a1 + 4 && v1 < n && item.get_char(v1) == ')' {
            let ver = item.substring_char(a1 + 4, v1);
            proof {
                assert(ver@ =~= item@.subrange(a1 + 4, v1 as int));
            }
            explicit = Some(ver);
        }
    }
    match explicit {
        Some(ver) => {
            proof {
                assert(pversion(item@, a1 as int) == Some(ver@));
            }
            let key = make_key(module, ver, arch);
            let ghost prev = acc.deep_view();
            insert_sorted(acc, key);
            proof {
                broadcast use vstd::set::group_set_axioms;

                assert(keys_of_item(version@, item@) =~= Set::empty().insert(
                    key_of(module@, ver@, arch@),
                ));
                assert forall|x: Seq<char>|
                    acc.deep_view().contains(x) == (prev.contains(x) || keys_of_item(
                        version@,
                        item@,
                    ).contains(x)) by {
                    assert(acc.deep_view().contains(x) == (prev.contains(x) || x == key@));
                }
            }
        },
        None => {
            proof {
                assert(pversion(item@, a1 as int) is None);
            }
            let vs = valid_lsb_versions(version, module);
            let ghost vs_v = spec_valid_lsb_versions(version@, module@);
            proof {
                assert(vs_v.take(0) =~= Seq::<Seq<char>>::empty());
            }
            let ghost base = acc.deep_view();
            let k = vs.len();
            let mut q: usize = 0;
            while q < k
                invariant
                    q <= k,
                    k == vs.deep_view().len(),
                    vs.deep_view() == vs_v,
                    strictly_sorted(acc.deep_view()),
                    forall|x: Seq<char>|
                        acc.deep_view().contains(x) == (base.contains(x) || versions_key_set(
                            module@,
                            arch@,
                            vs_v.take(q as int),
                        ).contains(x)),
                decreases k - q,
            {
                proof {
                    assert(vs_v.take(q + 1).last() == vs_v[q as int]);
                    assert(vs_v.take(q + 1).drop_last() =~= vs_v.take(q as int));
                    assert(vs@[q as int]@ == vs_v[q as int]);
                }
                let key = make_key(module, vs[q].as_str(), arch);
                let ghost prev = acc.deep_view();
                proof {
                    assert forall|x: Seq<char>|
                        prev.contains(x) == (base.contains(x) || versions_key_set(
                            module@,
                            arch@,
                            vs_v.take(q as int),
                        ).contains(x)) by {}
                }
                insert_sorted(acc, key);
                proof {
                    broadcast use vstd::set::group_set_axioms;

                    assert(versions_key_set(module@, arch@, vs_v.take(q + 1))
                        == versions_key_set(module@, arch@, vs_v.take(q as int)).insert(
                        key_of(module@, vs_v[q as int], arch@),
                    ));
                    assert forall|x: Seq<char>|
                        acc.deep_view().contains(x) == (base.contains(x) || versions_key_set(
                            module@,
                            arch@,
                            vs_v.take(q + 1),
                        ).contains(x)) by {
                        assert(acc.deep_view().contains(x) == (prev.contains(x) || x == key@));
                        assert(prev.contains(x) == (base.contains(x) || versions_key_set(
                            module@,
                            arch@,
                            vs_v.take(q as int),
                        ).contains(x)));
                    }
                }
                q = q + 1;
            }
            proof {
                assert(vs_v.take(k as int) =~= vs_v);
                assert(keys_of_item(version@, item@) == versions_key_set(module@, arch@, vs_v));
            }
        },
    }
}

/// Builds `{module}s-{version}s-{arch}s`, the exact literal key form.
fn make_key(module: &str, ver: &str, arch: &str) -> (r: String)
    ensures
        r@ == key_of(module@, ver@, arch@),
{
    let mut k = String::from_str(module);
    k.append("s-");
    k.append(ver);
    k.append("s-");
    k.append(arch);
    k.append("s");
    k
}

} // verus!
