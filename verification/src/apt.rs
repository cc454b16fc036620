//! The repository-policy records: parsing the policy command's report into
//! priority/policy entries, and choosing among them the entry the Debian
//! fallback trusts most.

use vstd::prelude::*;
use vstd::string::StrSliceExecFns;
use vstd::string::StringExecFns;
use crate::strutil::{
    trim, trim_spec, spec_lines, split_lines, spec_split, split_all, find_idx, find_from,
    starts_with, is_prefix_of, str_eq, run_end, lemma_run_end,
};
use crate::numdec::{is_digit, is_digit_exec, digits_val, run_digits, digits_to_u128, trunc_decimal,
    trunc_decimal_exec};
use crate::info::{DetectError, clone_opt};
use crate::table::{CodenameTable, find_in_seq, find_key};

verus! {

/// The ghost image of a policy record: five optional fields.
pub ghost struct AptPolicyV {
    pub version: Option<Seq<char>>,
    pub origin: Option<Seq<char>>,
    pub suite: Option<Seq<char>>,
    pub component: Option<Seq<char>>,
    pub label: Option<Seq<char>>,
}

/// One policy record, parsed from a comma-separated `key=value` fragment:
/// keys `v`, `o`, `a`, `c`, `l` fill version, origin, suite, component and
/// label; anything else is ignored.
pub struct AptPolicy {
    pub version: Option<String>,
    pub origin: Option<String>,
    pub suite: Option<String>,
    pub component: Option<String>,
    pub label: Option<String>,
}

impl View for AptPolicy {
    type V = AptPolicyV;

    open spec fn view(&self) -> AptPolicyV {
        AptPolicyV {
            version: self.version.deep_view(),
            origin: self.origin.deep_view(),
            suite: self.suite.deep_view(),
            component: self.component.deep_view(),
            label: self.label.deep_view(),
        }
    }
}

pub open spec fn empty_policy() -> AptPolicyV {
    AptPolicyV { version: None, origin: None, suite: None, component: None, label: None }
}

/// One comma-separated piece applied to the record: pieces without `=` are
/// ignored, and a later piece overwrites an earlier one with the same key.
pub open spec fn apply_policy_bit(acc: AptPolicyV, bit: Seq<char>) -> AptPolicyV {
    match find_idx(bit, '=', 0) {
        None => acc,
        Some(i) => {
            let k = bit.take(i);
            let v = bit.skip(i + 1);
            if k == "v"@ {
                AptPolicyV { version: Some(v), ..acc }
            } else if k == "o"@ {
                AptPolicyV { origin: Some(v), ..acc }
            } else if k == "a"@ {
                AptPolicyV { suite: Some(v), ..acc }
            } else if k == "c"@ {
                AptPolicyV { component: Some(v), ..acc }
            } else if k == "l"@ {
                AptPolicyV { label: Some(v), ..acc }
            } else {
                acc
            }
        },
    }
}

pub open spec fn policy_fold(bits: Seq<Seq<char>>, acc: AptPolicyV) -> AptPolicyV
    decreases bits.len(),
{
    if bits.len() == 0 {
        acc
    } else {
        policy_fold(bits.drop_first(), apply_policy_bit(acc, bits[0]))
    }
}

/// What parsing a policy fragment yields.
pub open spec fn apt_policy_of(s: Seq<char>) -> AptPolicyV {
    policy_fold(spec_split(s, ','), empty_policy())
}

impl AptPolicy {
    /// Parses a comma-separated `key=value` fragment into a record.
    pub fn from_str(s: &str) -> (r: AptPolicy)
        ensures
            r@ == apt_policy_of(s@),
    {
        let bits = split_all(s, ',');
        let ghost bits_v = spec_split(s@, ',');
        let mut acc = AptPolicy {
            version: None,
            origin: None,
            suite: None,
            component: None,
            label: None,
        };
        proof {
            assert(bits_v.skip(0) =~= bits_v);
        }
        let n = bits.len();
        let mut i: usize = 0;
        while i < n
            invariant
                i <= n,
                n == bits.deep_view().len(),
                bits.deep_view() == bits_v,
                apt_policy_of(s@) == policy_fold(bits_v.skip(i as int), acc@),
            decreases n - i,
        {
            let ghost before = acc@;
            let bit: &str = bits[i].as_str();
            proof {
                assert(bit@ == bits_v[i as int]);
            }
            match find_from(bit, 0, '=') {
                None => {
                },
                Some(eq_pos) => {
                    let bn = bit.unicode_len();
                    let k = bit.substring_char(0, eq_pos);
                    let v = bit.substring_char(eq_pos + 1, bn);
                    proof {
                        assert(k@ =~= bit@.take(eq_pos as int));
                        assert(v@ =~= bit@.skip(eq_pos + 1));
                    }
                    if str_eq(k, "v") {
                        acc.version = Some(String::from_str(v));
                    } else if str_eq(k, "o") {
                        acc.origin = Some(String::from_str(v));
                    } else if str_eq(k, "a") {
                        acc.suite = Some(String::from_str(v));
                    } else if str_eq(k, "c") {
                        acc.component = Some(String::from_str(v));
                    } else if str_eq(k, "l") {
                        acc.label = Some(String::from_str(v));
                    }
                },
            }
            proof {
                assert(acc@ == apply_policy_bit(before, bits_v[i as int]));
                assert(bits_v.skip(i as int).drop_first() =~= bits_v.skip(i + 1));
                assert(bits_v.skip(i as int)[0] == bits_v[i as int]);
            }
            i = i + 1;
        }
        proof {
            assert(bits_v.skip(n as int) =~= Seq::<Seq<char>>::empty());
        }
        acc
    }
}

/// One parsed entry of the policy report.
pub struct AptCachePolicyEntry {
    pub priority: i64,
    pub policy: AptPolicy,
}

impl View for AptCachePolicyEntry {
    type V = (int, AptPolicyV);

    open spec fn view(&self) -> (int, AptPolicyV) {
        (self.priority as int, self.policy@)
    }
}

pub open spec fn entries_view(s: Seq<AptCachePolicyEntry>) -> Seq<(int, AptPolicyV)> {
    s.map_values(|e: AptCachePolicyEntry| e@)
}

/// First position where a signed integer run begins: a digit, or a minus
/// sign directly before one.
pub open spec fn int_run_start(t: Seq<char>, from: int) -> Option<int>
    decreases t.len() - from,
{
    if from < 0 || from >= t.len() {
        None
    } else if is_digit(t[from]) || (t[from] == '-' && from + 1 < t.len() && is_digit(
        t[from + 1],
    )) {
        Some(from)
    } else {
        int_run_start(t, from + 1)
    }
}

/// The sign and digits of the first signed integer run of the line.
pub open spec fn line_priority(t: Seq<char>) -> Option<(bool, Seq<char>)> {
    match int_run_start(t, 0) {
        None => None,
        Some(i) => if t[i] == '-' {
            Some((true, t.subrange(i + 1, run_end(t, i + 1, |c: char| is_digit(c)))))
        } else {
            Some((false, t.subrange(i, run_end(t, i, |c: char| is_digit(c)))))
        },
    }
}

/// What one line of the report contributes: nothing for lines that do not
/// start (after trimming) with `release`; an error for a release line
/// without a readable priority; otherwise the priority and the policy
/// fragment after the first space, or nothing when no space follows.
pub open spec fn line_entry(l: Seq<char>) -> Result<Option<(int, AptPolicyV)>, ()> {
    let t = trim_spec(l);
    if !is_prefix_of("release"@, t) {
        Ok(None)
    } else {
        match line_priority(t) {
            None => Err(()),
            Some(p) => {
                let v = if p.0 {
                    -digits_val(p.1)
                } else {
                    digits_val(p.1)
                };
                if v > i64::MAX as int || v < i64::MIN as int {
                    Err(())
                } else {
                    match find_idx(t, ' ', 0) {
                        None => Ok(None),
                        Some(sp) => Ok(Some((v, apt_policy_of(t.skip(sp + 1))))),
                    }
                }
            },
        }
    }
}

pub open spec fn parse_lines(lines: Seq<Seq<char>>) -> Option<Seq<(int, AptPolicyV)>>
    decreases lines.len(),
{
    if lines.len() == 0 {
        Some(Seq::empty())
    } else {
        match line_entry(lines[0]) {
            Err(e) => None,
            Ok(opt) => match parse_lines(lines.drop_first()) {
                None => None,
                Some(rest) => Some(
                    match opt {
                        None => rest,
                        Some(e) => seq![e] + rest,
                    },
                ),
            },
        }
    }
}

/// What parsing a whole policy report yields, when every release line is
/// well formed.
pub open spec fn apt_parse(text: Seq<char>) -> Option<Seq<(int, AptPolicyV)>> {
    parse_lines(spec_lines(text))
}

/// Parses the policy report: kept lines are those whose trimmed form
/// starts with `release`; each needs a first signed integer run (its
/// priority, which must fit a 64-bit signed integer) and is split at its
/// first space, lines without one being dropped; the second part is the
/// policy fragment.  Entries come back in report order.
pub fn parse_apt_policy(text: &str) -> (r: Result<Vec<AptCachePolicyEntry>, DetectError>)
    ensures
        r is Ok <==> apt_parse(text@) is Some,
        r matches Ok(v) ==> apt_parse(text@) == Some(entries_view(v@)),
        r matches Err(e) ==> e is MalformedData,
{
    let lines = split_lines(text);
    let ghost lines_v = spec_lines(text@);
    let mut res: Vec<AptCachePolicyEntry> = Vec::new();
    proof {
        assert(lines_v.skip(0) =~= lines_v);
        assert(entries_view(res@) =~= Seq::<(int, AptPolicyV)>::empty());
    }
    let n = lines.len();
    let mut k: usize = 0;
    while k < n
        invariant
            k <= n,
            n == lines.deep_view().len(),
            lines.deep_view() == lines_v,
            match parse_lines(lines_v.skip(k as int)) {
                None => apt_parse(text@) is None,
                Some(rest) => apt_parse(text@) == Some(entries_view(res@) + rest),
            },
        decreases n - k,
    {
        let line: &str = lines[k].as_str();
        proof {
            assert(line@ == lines_v[k as int]);
            assert(lines_v.skip(k as int).drop_first() =~= lines_v.skip(k + 1));
            assert(lines_v.skip(k as int)[0] == lines_v[k as int]);
        }
        let t = trim(line);
        let tn = t.unicode_len();
        if starts_with(t, "release") {
            // the first signed integer run is the priority
            let mut j: usize = 0;
            let mut run_at: Option<usize> = None;
            while j < tn
                invariant_except_break
                    j <= tn,
                    tn == t@.len(),
                    run_at is None,
                    int_run_start(t@, 0) == int_run_start(t@, j as int),
                ensures
                    tn == t@.len(),
                    match run_at {
                        None => int_run_start(t@, 0) is None,
                        Some(f) => int_run_start(t@, 0) == Some(f as int) && f < tn,
                    },
                decreases tn - j,
            {
                let c = t.get_char(j);
                let hit = is_digit_exec(c) || (c == '-' && j + 1 < tn && is_digit_exec(
                    t.get_char(j + 1),
                ));
                if hit {
                    run_at = Some(j);
                    break ;
                }
                j = j + 1;
            }
            match run_at {
                None => {
                    return Err(DetectError::MalformedData);
                },
                Some(at) => {
                    let neg = t.get_char(at) == '-';
                    let dstart = if neg {
                        at + 1
                    } else {
                        at
                    };
                    let dend = run_digits(t, dstart);
                    proof {
                        lemma_run_end(t@, dstart as int, |c: char| is_digit(c));
                    }
                    let mag = digits_to_u128(t, dstart, dend);
                    let prio: i64;
                    match mag {
                        None => {
                            return Err(DetectError::MalformedData);
                        },
                        Some(m) => {
                            if neg {
                                if m > 9223372036854775808u128 {
                                    return Err(DetectError::MalformedData);
                                } else if m == 9223372036854775808u128 {
                                    prio = i64::MIN;
                                } else {
                                    prio = -(m as i64);
                                }
                            } else {
                                if m > i64::MAX as u128 {
                                    return Err(DetectError::MalformedData);
                                } else {
                                    prio = m as i64;
                                }
                            }
                        },
                    }
                    match find_from(t, 0, ' ') {
                        None => {
                        },
                        Some(sp) => {
                            let frag = t.substring_char(sp + 1, tn);
                            proof {
                                assert(frag@ =~= t@.skip(sp + 1));
                            }
                            let policy = AptPolicy::from_str(frag);
                            let entry = AptCachePolicyEntry { priority: prio, policy };
                            let ghost prev = entries_view(res@);
                            let ghost ev = entry@;
                            res.push(entry);
                            proof {
                                assert(entries_view(res@) =~= prev.push(ev));
                                assert(line_entry(lines_v[k as int]) == Ok::<_, ()>(
                                    Some(ev),
                                ));
                                if parse_lines(lines_v.skip(k + 1)) is Some {
                                    let rest = parse_lines(lines_v.skip(k + 1)).unwrap();
                                    assert(prev.push(ev) + rest =~= prev + (seq![ev] + rest));
                                }
                            }
                        },
                    }
                },
            }
        }
        k = k + 1;
    }
    proof {
        assert(lines_v.skip(n as int) =~= Seq::<Seq<char>>::empty());
        assert(entries_view(res@) + Seq::<(int, AptPolicyV)>::empty() =~= entries_view(res@));
    }
    Ok(res)
}

/// The ghost image of the guesser's configuration.
pub ghost struct AptGuessConfigV {
    pub origin: Seq<char>,
    pub component: Seq<char>,
    pub ignore_suites: Seq<Seq<char>>,
    pub label: Seq<char>,
    pub alternate_olabels: Seq<(Seq<char>, Seq<Seq<char>>)>,
}

/// The default configuration as a specification value.
pub open spec fn debian_defaults_v() -> AptGuessConfigV {
    AptGuessConfigV {
        origin: "Debian"@,
        component: "main"@,
        ignore_suites: seq!["experimental"@],
        label: "Debian"@,
        alternate_olabels: seq![
            ("Debian Ports"@, seq!["ftp.ports.debian.org"@, "ftp.debian-ports.org"@]),
        ],
    }
}

/// The guesser's tunables: the origin, component and label an entry must
/// carry, the suites to pass over, and the alternate origins accepted for
/// certain labels.
pub struct AptGuessConfig {
    pub origin: String,
    pub component: String,
    pub ignore_suites: Vec<String>,
    pub label: String,
    pub alternate_olabels: Vec<(String, Vec<String>)>,
}

impl View for AptGuessConfig {
    type V = AptGuessConfigV;

    open spec fn view(&self) -> AptGuessConfigV {
        AptGuessConfigV {
            origin: self.origin@,
            component: self.component@,
            ignore_suites: self.ignore_suites.deep_view(),
            label: self.label@,
            alternate_olabels: self.alternate_olabels@.map_values(
                |p: (String, Vec<String>)| (p.0@, p.1.deep_view()),
            ),
        }
    }
}

impl AptGuessConfig {
    /// The defaults the Debian fallback uses: origin and label `Debian`,
    /// component `main`, the `experimental` suite ignored, and the two
    /// Debian Ports mirror labels accepted under the `Debian Ports`
    /// origin.
    pub fn debian_defaults() -> (r: AptGuessConfig)
        ensures
            r@ == debian_defaults_v(),
    {
        let mut ignore: Vec<String> = Vec::new();
        ignore.push(String::from_str("experimental"));
        let mut ports: Vec<String> = Vec::new();
        ports.push(String::from_str("ftp.ports.debian.org"));
        ports.push(String::from_str("ftp.debian-ports.org"));
        proof {
            assert(ports.deep_view() =~= seq!["ftp.ports.debian.org"@, "ftp.debian-ports.org"@]);
        }
        let mut alternate: Vec<(String, Vec<String>)> = Vec::new();
        alternate.push((String::from_str("Debian Ports"), ports));
        let r = AptGuessConfig {
            origin: String::from_str("Debian"),
            component: String::from_str("main"),
            ignore_suites: ignore,
            label: String::from_str("Debian"),
            alternate_olabels: alternate,
        };
        proof {
            assert(r@.ignore_suites =~= debian_defaults_v().ignore_suites);
            assert(r@.alternate_olabels =~= debian_defaults_v().alternate_olabels);
        }
        r
    }
}

pub open spec fn opt_or_empty(o: Option<Seq<char>>) -> Seq<char> {
    match o {
        Some(s) => s,
        None => Seq::empty(),
    }
}

/// Whether an entry survives the filter: the configured origin, component
/// and label with a suite not ignored, or an alternate origin whose listed
/// labels include the configured label.  Absent fields read as empty text.
pub open spec fn entry_matches(p: AptPolicyV, cfg: AptGuessConfigV) -> bool {
    let po = opt_or_empty(p.origin);
    let ps = opt_or_empty(p.suite);
    let pc = opt_or_empty(p.component);
    let pl = opt_or_empty(p.label);
    (po == cfg.origin && !cfg.ignore_suites.contains(ps) && pc == cfg.component && pl == cfg.label)
        || (exists|k: int|
        0 <= k < cfg.alternate_olabels.len() && (#[trigger] cfg.alternate_olabels[k]).0 == po
            && cfg.alternate_olabels[k].1.contains(cfg.label))
}

/// The tie-break weight of an entry: a suite in the release order weighs
/// the distance from the order's end (earlier suites weigh more), any
/// other suite its numeral truncated, and a missing suite zero.
pub open spec fn suite_weight(p: AptPolicyV, order: Seq<Seq<char>>) -> int {
    match p.suite {
        None => 0,
        Some(s) => match find_in_seq(order, s, 0) {
            Some(pos) => order.len() - pos,
            None => trunc_decimal(s),
        },
    }
}

/// The entry the guesser returns: it survives the filter, carries the
/// highest surviving priority, weighs no more than any other such entry,
/// and is the earliest among those of its weight.
pub open spec fn champion(
    es: Seq<(int, AptPolicyV)>,
    cfg: AptGuessConfigV,
    order: Seq<Seq<char>>,
    j: int,
) -> bool {
    &&& 0 <= j < es.len()
    &&& entry_matches(es[j].1, cfg)
    &&& forall|l: int|
        0 <= l < es.len() && entry_matches((#[trigger] es[l]).1, cfg) ==> es[l].0 <= es[j].0
    &&& forall|l: int|
        0 <= l < es.len() && entry_matches((#[trigger] es[l]).1, cfg) && es[l].0 == es[j].0
            ==> suite_weight(es[j].1, order) <= suite_weight(es[l].1, order)
    &&& forall|l: int|
        0 <= l < j && entry_matches((#[trigger] es[l]).1, cfg) && es[l].0 == es[j].0
            ==> suite_weight(es[l].1, order) > suite_weight(es[j].1, order)
}

/// Whether the field, read as empty when absent, equals `s`.
fn opt_field_eq(p: &Option<String>, s: &String) -> (r: bool)
    ensures
        r == (opt_or_empty(p.deep_view()) == s@),
{
    match p {
        Some(v) => str_eq(v.as_str(), s.as_str()),
        None => {
            let r = s.as_str().unicode_len() == 0;
            proof {
                if r {
                    assert(Seq::<char>::empty() =~= s@);
                }
            }
            r
        },
    }
}

/// Whether any string of `xs` equals `key`.
fn contains_str(xs: &Vec<String>, key: &str) -> (r: bool)
    ensures
        r == xs.deep_view().contains(key@),
{
    let n = xs.len();
    let mut i: usize = 0;
    while i < n
        invariant
            i <= n,
            n == xs.deep_view().len(),
            forall|j: int| 0 <= j < i ==> xs.deep_view()[j] != key@,
        decreases n - i,
    {
        if str_eq(xs[i].as_str(), key) {
            proof {
                assert(xs.deep_view()[i as int] == key@);
            }
            return true;
        }
        i = i + 1;
    }
    proof {
        assert(!xs.deep_view().contains(key@));
    }
    false
}

/// Exec form of the filter predicate.
fn entry_matches_exec(p: &AptPolicy, cfg: &AptGuessConfig) -> (r: bool)
    ensures
        r == entry_matches(p@, cfg@),
{
    let direct = opt_field_eq(&p.origin, &cfg.origin) && {
        let ps = match &p.suite {
            Some(s) => s.as_str(),
            None => "",
        };
        proof {
            reveal_strlit("");
            assert(""@ =~= Seq::<char>::empty());
        }
        !contains_str(&cfg.ignore_suites, ps)
    } && opt_field_eq(&p.component, &cfg.component) && opt_field_eq(&p.label, &cfg.label);
    if direct {
        return true;
    }
    let po = match &p.origin {
        Some(s) => s.as_str(),
        None => "",
    };
    proof {
        reveal_strlit("");
        assert(""@ =~= Seq::<char>::empty());
        assert(po@ == opt_or_empty(p@.origin));
    }
    let n = cfg.alternate_olabels.len();
    let ghost alts = cfg@.alternate_olabels;
    proof {
        assert(alts.len() == n);
    }
    let mut k: usize = 0;
    while k < n
        invariant
            k <= n,
            n == cfg.alternate_olabels@.len(),
            alts == cfg@.alternate_olabels,
            alts.len() == n,
            po@ == opt_or_empty(p@.origin),
            forall|l: int|
                0 <= l < k ==> !((#[trigger] alts[l]).0 == po@ && alts[l].1.contains(cfg@.label)),
        decreases n - k,
    {
        proof {
            assert(alts[k as int] == (cfg.alternate_olabels@[k as int].0@,
            cfg.alternate_olabels@[k as int].1.deep_view()));
        }
        let pair = &cfg.alternate_olabels[k];
        if str_eq(pair.0.as_str(), po) && contains_str(&pair.1, cfg.label.as_str()) {
            proof {
                assert(alts[k as int].0 == po@ && alts[k as int].1.contains(cfg@.label));
            }
            return true;
        }
        k = k + 1;
    }
    proof {
        assert(!entry_matches(p@, cfg@));
    }
    false
}

/// Exec form of the tie-break weight, exact over the whole 64-bit range.
fn suite_weight_exec(p: &AptPolicy, order: &Vec<String>) -> (w: i128)
    ensures
        w as int == suite_weight(p@, order.deep_view()),
{
    match &p.suite {
        None => 0,
        Some(s) => match find_key(order, s.as_str()) {
            Some(pos) => (order.len() - pos) as i128,
            None => trunc_decimal_exec(s.as_str()) as i128,
        },
    }
}

/// A field-for-field copy of a policy record.
fn clone_policy(p: &AptPolicy) -> (r: AptPolicy)
    ensures
        r@ == p@,
{
    AptPolicy {
        version: clone_opt(&p.version),
        origin: clone_opt(&p.origin),
        suite: clone_opt(&p.suite),
        component: clone_opt(&p.component),
        label: clone_opt(&p.label),
    }
}

impl CodenameTable {
    /// Chooses from the parsed policy entries the one the fallback trusts:
    /// among the entries that survive the filter, those of highest
    /// priority; among those, the earliest entry of least weight.  With no
    /// entries at hand (the collection failed) or none surviving, there is
    /// no choice.
    pub fn guess_release_from_apt(
        &self,
        entries: Option<&Vec<AptCachePolicyEntry>>,
        config: &AptGuessConfig,
    ) -> (r: Option<AptPolicy>)
        ensures
            entries is None ==> r is None,
            entries matches Some(es) ==> match r {
                None => forall|l: int|
                    0 <= l < es@.len() ==> !entry_matches(
                        (#[trigger] entries_view(es@)[l]).1,
                        config@,
                    ),
                Some(p) => exists|j: int|
                    champion(entries_view(es@), config@, self@.release_order, j) && p@
                        == entries_view(es@)[j].1,
            },
    {
        let es = match entries {
            None => {
                return None;
            },
            Some(es) => es,
        };
        let ghost ev = entries_view(es@);
        let ghost order = self@.release_order;
        let n = es.len();
        proof {
            assert(ev.len() == n);
        }
        let mut best: Option<usize> = None;
        let mut best_w: i128 = 0;
        let mut best_p: i64 = 0;
        let mut i: usize = 0;
        while i < n
            invariant
                i <= n,
                n == es@.len(),
                ev == entries_view(es@),
                ev.len() == n,
                order == self@.release_order,
                match best {
                    None => forall|l: int|
                        0 <= l < i ==> !entry_matches((#[trigger] ev[l]).1, config@),
                    Some(b) => {
                        &&& b < i
                        &&& entry_matches(ev[b as int].1, config@)
                        &&& best_p as int == ev[b as int].0
                        &&& best_w as int == suite_weight(ev[b as int].1, order)
                        &&& forall|l: int|
                            0 <= l < i && entry_matches((#[trigger] ev[l]).1, config@) ==> ev[l].0
                                <= best_p as int
                        &&& forall|l: int|
                            0 <= l < i && entry_matches((#[trigger] ev[l]).1, config@) && ev[l].0
                                == best_p as int ==> suite_weight(ev[l].1, order) >= best_w as int
                        &&& forall|l: int|
                            0 <= l < b && entry_matches((#[trigger] ev[l]).1, config@) && ev[l].0
                                == best_p as int ==> suite_weight(ev[l].1, order) > best_w as int
                    },
                },
            decreases n - i,
        {
            proof {
                assert(ev[i as int] == es@[i as int]@);
            }
            let e = &es[i];
            if entry_matches_exec(&e.policy, config) {
                let w = suite_weight_exec(&e.policy, &self.release_order);
                let take = match best {
                    None => true,
                    Some(b) => e.priority > best_p || (e.priority == best_p && w < best_w),
                };
                if take {
                    best = Some(i);
                    best_w = w;
                    best_p = e.priority;
                }
            }
            i = i + 1;
        }
        match best {
            None => None,
            Some(b) => {
                proof {
                    assert(champion(ev, config@, order, b as int));
                }
                let out = Some(clone_policy(&es[b].policy));
                proof {
                    assert(ev[b as int] == es@[b as int]@);
                }
                out
            },
        }
    }
}

} // verus!
