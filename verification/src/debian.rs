//! The Debian fallback detector: the vendor from the dpkg origin file,
//! the OS family from the kernel's name, the version-file heuristic, and
//! the repository-policy fallback that fills a still-missing codename.
//!
//! Every failure along the way is reported to the caller, which degrades
//! the affected fields to absent instead of aborting.

use vstd::prelude::*;
use vstd::string::StrSliceExecFns;
use vstd::string::StringExecFns;
use crate::strutil::{
    trim, trim_spec, spec_lines, split_lines, find_pair, find_pair_idx, str_eq, ends_with,
    is_suffix_of,
};
use crate::foreign::{to_lowercase, lower_of, is_alpha_char, alpha_char};
use crate::info::{DistroInfo, DistroInfoV, DetectError, clone_opt};
use crate::table::{CodenameTable, CodenameTableV, table_ok, table_load_ok, rows_view, lookup_spec};
use crate::apt::{
    AptPolicyV, AptGuessConfig, AptCachePolicyEntry, parse_apt_policy, apt_parse, entry_matches,
    champion, opt_or_empty, debian_defaults_v,
};

verus! {

/// The vendor named by one `Header: content` line: the trimmed content
/// when the header, lower-cased, is `vendor`.  Lines without the
/// separator name nothing.
pub open spec fn vendor_of_line(l: Seq<char>) -> Option<Seq<char>> {
    match find_pair_idx(l, ':', ' ', 0) {
        None => None,
        Some(i) => if lower_of(l.take(i)) == "vendor"@ {
            Some(trim_spec(l.skip(i + 2)))
        } else {
            None
        },
    }
}

/// The content of the last vendor line, if any.
pub open spec fn last_vendor(lines: Seq<Seq<char>>) -> Option<Seq<char>>
    decreases lines.len(),
{
    if lines.len() == 0 {
        None
    } else {
        match vendor_of_line(lines.last()) {
            Some(v) => Some(v),
            None => last_vendor(lines.drop_last()),
        }
    }
}

/// Reads the dpkg origin text: the content of the last line whose header,
/// lower-cased, equals `vendor`.  An unreadable file (`None`) or a text
/// without such a line leaves the vendor unset.
pub fn dpkg_default_vendor(origin_text: Option<&str>) -> (r: Option<String>)
    ensures
        match origin_text {
            None => r is None,
            Some(t) => r.deep_view() == last_vendor(spec_lines(t@)),
        },
{
    let text = match origin_text {
        None => {
            return None;
        },
        Some(t) => t,
    };
    let lines = split_lines(text);
    let ghost lines_v = spec_lines(text@);
    let mut acc: Option<String> = None;
    proof {
        assert(lines_v.take(0) =~= Seq::<Seq<char>>::empty());
    }
    let n = lines.len();
    let mut i: usize = 0;
    while i < n
        invariant
            i <= n,
            n == lines.deep_view().len(),
            lines.deep_view() == lines_v,
            acc.deep_view() == last_vendor(lines_v.take(i as int)),
        decreases n - i,
    {
        let line: &str = lines[i].as_str();
        proof {
            assert(line@ == lines_v[i as int]);
            assert(lines_v.take(i + 1).last() == lines_v[i as int]);
            assert(lines_v.take(i + 1).drop_last() =~= lines_v.take(i as int));
        }
        match find_pair(line, ':', ' ') {
            None => {
            },
            Some(sep) => {
                let header = line.substring_char(0, sep);
                let lowered = to_lowercase(header);
                proof {
                    assert(header@ =~= line@.take(sep as int));
                }
                if str_eq(lowered.as_str(), "vendor") {
                    let ln = line.unicode_len();
                    let rest = line.substring_char(sep + 2, ln);
                    proof {
                        assert(rest@ =~= line@.skip(sep + 2));
                    }
                    let content = trim(rest);
                    acc = Some(String::from_str(content));
                }
            },
        }
        i = i + 1;
    }
    proof {
        assert(lines_v.take(n as int) =~= lines_v);
    }
    acc
}

/// The OS family string derived from the kernel's reported system name.
pub open spec fn spec_os_family(s: Seq<char>) -> Seq<char> {
    if s == "Linux"@ || s == "Hurd"@ || s == "NetBSD"@ {
        "GNU/"@ + s
    } else if s == "FreeBSD"@ {
        "GNU/kFreeBSD"@
    } else if s == "GNU/Linux"@ || s == "GNU/kFreeBSD"@ {
        s
    } else {
        "GNU"@
    }
}

/// `Linux`, `Hurd` and `NetBSD` gain a `GNU/` prefix, `FreeBSD` maps to
/// `GNU/kFreeBSD`, the two full names pass through, and anything else is
/// plain `GNU`.
pub fn os_family(sysname: &str) -> (r: String)
    ensures
        r@ == spec_os_family(sysname@),
{
    if str_eq(sysname, "Linux") || str_eq(sysname, "Hurd") || str_eq(sysname, "NetBSD") {
        let mut r = String::from_str("GNU/");
        r.append(sysname);
        r
    } else if str_eq(sysname, "FreeBSD") {
        String::from_str("GNU/kFreeBSD")
    } else if str_eq(sysname, "GNU/Linux") || str_eq(sysname, "GNU/kFreeBSD") {
        String::from_str(sysname)
    } else {
        String::from_str("GNU")
    }
}

/// What the first line of the Debian version file determines: a line not
/// opening with two alphabetic characters is the release, with the
/// codename looked up in the table (`n/a` when absent); a line ending in
/// `/sid` keeps the prefix as the release unless it spells `testing`
/// (case-insensitively), which leaves both absent; anything else is the
/// release alone.
pub open spec fn debian_heuristic(first: Seq<char>, rows: Seq<(Seq<char>, Seq<char>)>) -> (
    Option<Seq<char>>,
    Option<Seq<char>>,
) {
    let both_alpha = first.len() >= 2 && alpha_char(first[0]) && alpha_char(first[1]);
    if !both_alpha {
        let code = match lookup_spec(rows, first) {
            Some(c) => c,
            None => "n/a"@,
        };
        (Some(first), Some(code))
    } else if is_suffix_of("/sid"@, first) {
        let strip = first.take(first.len() - 4);
        if lower_of(strip) == "testing"@ {
            (None, None)
        } else {
            (Some(strip), None)
        }
    } else {
        (Some(first), None)
    }
}

/// The version-file heuristic over the loaded table.
pub fn get_debian_release(first_line: &str, table: &CodenameTable) -> (r: (
    Option<String>,
    Option<String>,
))
    ensures
        (r.0.deep_view(), r.1.deep_view()) == debian_heuristic(first_line@, rows_view(table.rows@)),
{
    let n = first_line.unicode_len();
    let both_alpha = n >= 2 && is_alpha_char(first_line.get_char(0)) && is_alpha_char(
        first_line.get_char(1),
    );
    if !both_alpha {
        let code = match table.lookup_codename(first_line) {
            Some(c) => Some(c),
            None => Some(String::from_str("n/a")),
        };
        (Some(String::from_str(first_line)), code)
    } else if ends_with(first_line, "/sid") {
        proof {
            reveal_strlit("/sid");
        }
        let strip = first_line.substring_char(0, n - 4);
        proof {
            assert(strip@ =~= first_line@.take(n - 4));
        }
        let lowered = to_lowercase(strip);
        if str_eq(lowered.as_str(), "testing") {
            (None, None)
        } else {
            (Some(String::from_str(strip)), None)
        }
    } else {
        (Some(String::from_str(first_line)), None)
    }
}

/// The chosen policy comes from a Debian Ports mirror: its origin is
/// `Debian Ports` and its label one of the two mirror names.  Such a
/// choice discards its version and is treated as the `unstable` suite.
pub open spec fn ports_cond(p: AptPolicyV) -> bool {
    p.origin == Some("Debian Ports"@) && (p.label == Some("ftp.ports.debian.org"@) || p.label
        == Some("ftp.debian-ports.org"@))
}

/// The fallback record after the policy guess is applied and the
/// description finished.  With the codename already present, or no chosen
/// policy, only the description changes: the release and then the codename
/// are appended to it, each once, in that order.
pub open spec fn apt_applied(
    info: DistroInfoV,
    t: CodenameTableV,
    rinfo: Option<AptPolicyV>,
) -> DistroInfoV {
    let base = if info.codename is None {
        match rinfo {
            None => info,
            Some(p) => {
                let release = match p.version {
                    Some(ver) => if ports_cond(p) {
                        None
                    } else {
                        Some(ver)
                    },
                    None => None::<Seq<char>>,
                };
                let eff = if p.version is Some && ports_cond(p) {
                    "unstable"@
                } else {
                    match p.suite {
                        Some(s) => s,
                        None => "unstable"@,
                    }
                };
                let codename = match release {
                    Some(ver) => lookup_spec(t.rows, ver),
                    None => if eff == "testing"@ {
                        t.testing_sentinel
                    } else {
                        Some("sid"@)
                    },
                };
                DistroInfoV { release, codename, ..info }
            },
        }
    } else {
        info
    };
    let d1 = match (base.description, base.release) {
        (Some(d), Some(rl)) => Some(d + " "@ + rl),
        (d, _) => d,
    };
    let d2 = match (d1, base.codename) {
        (Some(d), Some(c)) => Some(d + " "@ + c),
        (d, _) => d,
    };
    DistroInfoV { description: d2, ..base }
}

/// The fallback paused before the policy step: the identity fields and
/// description seed are set, and the codename may still be missing.
pub struct DebianGuess {
    pub info: DistroInfo,
    pub table: CodenameTable,
}

impl DebianGuess {
    /// Whether the policy command's report is still needed: the version
    /// file left no codename.
    pub fn needs_apt_policy(&self) -> (r: bool)
        ensures
            r == (self.info@.codename is None),
    {
        self.info.codename.is_none()
    }

    /// Applies the policy guess (made from the report text, when one is
    /// given and parses) and finishes the description.
    pub fn finish(self, apt_output: Option<&str>) -> (r: DistroInfo)
        ensures
            ({
                let chosen_none = apt_applied(self.info@, self.table@, None);
                if self.info@.codename is Some {
                    r@ == chosen_none
                } else {
                    match apt_output {
                        None => r@ == chosen_none,
                        Some(t) => match apt_parse(t@) {
                            None => r@ == chosen_none,
                            Some(es) => (exists|j: int|
                                champion(es, debian_defaults_v(), self.table@.release_order, j)
                                    && r@ == apt_applied(
                                    self.info@,
                                    self.table@,
                                    Some(es[j].1),
                                )) || ((forall|l: int|
                                0 <= l < es.len() ==> !entry_matches(
                                    (#[trigger] es[l]).1,
                                    debian_defaults_v(),
                                )) && r@ == chosen_none),
                        },
                    }
                }
            }),
    {
        let mut info = self.info;
        let table = self.table;
        if info.codename.is_none() {
            let parsed: Option<Vec<AptCachePolicyEntry>> = match apt_output {
                None => None,
                Some(t) => match parse_apt_policy(t) {
                    Ok(v) => Some(v),
                    Err(_) => None,
                },
            };
            let config = AptGuessConfig::debian_defaults();
            let rinfo = table.guess_release_from_apt(parsed.as_ref(), &config);
            match rinfo {
                None => {
                },
                Some(p) => {
                    let ports = (match &p.origin {
                        Some(o) => str_eq(o.as_str(), "Debian Ports"),
                        None => false,
                    }) && (match &p.label {
                        Some(l) => str_eq(l.as_str(), "ftp.ports.debian.org") || str_eq(
                            l.as_str(),
                            "ftp.debian-ports.org",
                        ),
                        None => false,
                    });
                    let release: Option<String> = match &p.version {
                        Some(ver) => if ports {
                            None
                        } else {
                            Some(ver.clone())
                        },
                        None => None,
                    };
                    let codename: Option<String> = match &release {
                        Some(ver) => table.lookup_codename(ver.as_str()),
                        None => {
                            let eff: String = if ports && p.version.is_some() {
                                String::from_str("unstable")
                            } else {
                                match &p.suite {
                                    Some(s) => s.clone(),
                                    None => String::from_str("unstable"),
                                }
                            };
                            if str_eq(eff.as_str(), "testing") {
                                clone_opt(&table.testing_sentinel)
                            } else {
                                Some(String::from_str("sid"))
                            }
                        },
                    };
                    info.release = release;
                    info.codename = codename;
                },
            }
        }
        let with_release: Option<String> = match (info.description, &info.release) {
            (Some(d), Some(rl)) => {
                let mut d = d;
                d.append(" ");
                d.append(rl.as_str());
                Some(d)
            },
            (d, _) => d,
        };
        let with_codename: Option<String> = match (with_release, &info.codename) {
            (Some(d), Some(c)) => {
                let mut d = d;
                d.append(" ");
                d.append(c.as_str());
                Some(d)
            },
            (d, _) => d,
        };
        info.description = with_codename;
        info
    }
}

/// The fallback's first stage: the vendor becomes the id (an origin file
/// without a vendor line leaves the id unset), the codename table is
/// loaded for it, the description seed is formed from the id and the OS
/// family, and the version-file heuristic fills release and codename.
/// Each missing input is reported: the codename CSV text or the version
/// file being unreadable as `NotFound`, a CSV that does not load as
/// `MalformedData`, and a missing system name as
/// `ExternalProcessUnavailable`.
pub fn guess_debian_release(
    vendor: Option<String>,
    sysname: Option<&str>,
    csv_text: Option<&str>,
    debian_version_line: Option<Option<String>>,
) -> (r: Result<DebianGuess, DetectError>)
    ensures
        ({
            let vendor_eff = match vendor {
                Some(v) => v@,
                None => "Debian"@,
            };
            match r {
                Err(e) => {
                    ||| (csv_text is None && e is NotFound)
                    ||| (csv_text matches Some(ct) && !table_load_ok(ct@) && e is MalformedData)
                    ||| (csv_text matches Some(ct) && table_load_ok(ct@) && sysname is None
                        && e is ExternalProcessUnavailable)
                    ||| (csv_text matches Some(ct) && table_load_ok(ct@) && sysname is Some
                        && debian_version_line is None && e is NotFound)
                },
                Ok(g) => {
                    &&& csv_text matches Some(ct) && table_ok(g.table@, vendor_eff, ct@)
                    &&& sysname matches Some(sn) && debian_version_line matches Some(line) && {
                        let first = match line.deep_view() {
                            Some(l) => l,
                            None => "unknown"@,
                        };
                        &&& g.info@.id == vendor.deep_view()
                        &&& g.info@.description == Some(
                            opt_or_empty(vendor.deep_view()) + "s "@ + spec_os_family(sn@)
                                + "s"@,
                        )
                        &&& (g.info@.release, g.info@.codename) == debian_heuristic(
                            first,
                            g.table@.rows,
                        )
                    }
                },
            }
        }),
{
    let csv = match csv_text {
        None => {
            return Err(DetectError::NotFound);
        },
        Some(t) => t,
    };
    let vendor_str: &str = match &vendor {
        Some(v) => v.as_str(),
        None => "Debian",
    };
    let table = match CodenameTable::get_distro_info(vendor_str, csv) {
        Ok(t) => t,
        Err(_) => {
            return Err(DetectError::MalformedData);
        },
    };
    let sn = match sysname {
        None => {
            return Err(DetectError::ExternalProcessUnavailable);
        },
        Some(s) => s,
    };
    let os = os_family(sn);
    let mut description = match &vendor {
        Some(v) => v.clone(),
        None => String::new(),
    };
    proof {
        if vendor is None {
            assert(description@ =~= opt_or_empty(vendor.deep_view()));
        }
    }
    description.append("s ");
    description.append(os.as_str());
    description.append("s");
    let first: String = match debian_version_line {
        None => {
            return Err(DetectError::NotFound);
        },
        Some(inner) => match inner {
            Some(l) => l,
            None => String::from_str("unknown"),
        },
    };
    let (release, codename) = get_debian_release(first.as_str(), &table);
    let info = DistroInfo { release, codename, id: vendor, description: Some(description) };
    Ok(DebianGuess { info, table })
}

} // verus!
