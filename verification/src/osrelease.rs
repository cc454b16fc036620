//! The OS-release file parser: line-oriented `KEY=value` text, values
//! optionally double-quoted, with the four recognised keys mapped onto the
//! distribution record; and the top of the detection pipeline, which falls
//! back to the Debian heuristic only when the parse yields nothing.

use vstd::prelude::*;
use vstd::string::StrSliceExecFns;
use vstd::string::StringExecFns;
use crate::strutil::{trim, trim_spec, spec_lines, split_lines, find_idx, find_from, str_eq};
use crate::foreign::{title_case, title_of};
use crate::info::{DistroInfo, DistroInfoV, empty_info, is_partial_v, merged_v};

verus! {

/// One line applied to the record: blank lines and lines without `=` are
/// skipped; a value wrapped in a pair of double quotes (two characters or
/// more) loses them; an empty value leaves its key ignored.  Later lines
/// overwrite earlier ones.
pub open spec fn apply_os_line(acc: DistroInfoV, l: Seq<char>) -> DistroInfoV {
    let t = trim_spec(l);
    if t.len() == 0 {
        acc
    } else {
        match find_idx(t, '=', 0) {
            None => acc,
            Some(i) => {
                let key = t.take(i);
                let raw = t.skip(i + 1);
                let arg = if raw.len() >= 2 && raw[0] == '"' && raw.last() == '"' {
                    raw.subrange(1, raw.len() - 1)
                } else {
                    raw
                };
                if arg.len() == 0 {
                    acc
                } else if key == "VERSION_ID"@ {
                    DistroInfoV { release: Some(trim_spec(arg)), ..acc }
                } else if key == "VERSION_CODENAME"@ {
                    DistroInfoV { codename: Some(trim_spec(arg)), ..acc }
                } else if key == "ID"@ {
                    DistroInfoV { id: Some(title_of(trim_spec(arg))), ..acc }
                } else if key == "PRETTY_NAME"@ {
                    DistroInfoV { description: Some(trim_spec(arg)), ..acc }
                } else {
                    acc
                }
            },
        }
    }
}

pub open spec fn os_release_fold(lines: Seq<Seq<char>>, acc: DistroInfoV) -> DistroInfoV
    decreases lines.len(),
{
    if lines.len() == 0 {
        acc
    } else {
        os_release_fold(lines.drop_first(), apply_os_line(acc, lines[0]))
    }
}

/// What parsing an OS-release text yields.
pub open spec fn os_release_info(text: Seq<char>) -> DistroInfoV {
    os_release_fold(spec_lines(text), empty_info())
}

impl DistroInfo {
    /// Parses an OS-release text: `VERSION_ID` becomes the release,
    /// `VERSION_CODENAME` the codename, `ID` (title-cased) the id and
    /// `PRETTY_NAME` the description; everything else is ignored.
    pub fn get_partial_info(text: &str) -> (r: DistroInfo)
        ensures
            r@ == os_release_info(text@),
    {
        let lines = split_lines(text);
        let ghost lines_v = spec_lines(text@);
        let mut acc = DistroInfo::empty();
        proof {
            assert(lines_v.skip(0) =~= lines_v);
        }
        let n = lines.len();
        let mut i: usize = 0;
        while i < n
            invariant
                i <= n,
                n == lines.deep_view().len(),
                lines.deep_view() == lines_v,
                os_release_info(text@) == os_release_fold(lines_v.skip(i as int), acc@),
            decreases n - i,
        {
            let ghost before = acc@;
            let line: &str = lines[i].as_str();
            proof {
                assert(line@ == lines_v[i as int]);
            }
            let t = trim(line);
            if t.unicode_len() > 0 {
                match find_from(t, 0, '=') {
                    None => {
                        proof {
                            assert(apply_os_line(before, lines_v[i as int]) == before);
                        }
                    },
                    Some(eq_pos) => {
                        let tn = t.unicode_len();
                        let key = t.substring_char(0, eq_pos);
                        let raw = t.substring_char(eq_pos + 1, tn);
                        let rn = raw.unicode_len();
                        let arg = if rn >= 2 && raw.get_char(0) == '"' && raw.get_char(rn - 1)
                            == '"' {
                            raw.substring_char(1, rn - 1)
                        } else {
                            raw
                        };
                        proof {
                            assert(key@ =~= trim_spec(line@).take(eq_pos as int));
                            assert(raw@ =~= trim_spec(line@).skip(eq_pos + 1));
                        }
                        if arg.unicode_len() > 0 {
                            let val = trim(arg);
                            if str_eq(key, "VERSION_ID") {
                                acc.release = Some(String::from_str(val));
                            } else if str_eq(key, "VERSION_CODENAME") {
                                acc.codename = Some(String::from_str(val));
                            } else if str_eq(key, "ID") {
                                acc.id = Some(title_case(val));
                            } else if str_eq(key, "PRETTY_NAME") {
                                acc.description = Some(String::from_str(val));
                            }
                        }
                    },
                }
            }
            proof {
                assert(acc@ == apply_os_line(before, lines_v[i as int]));
                assert(lines_v.skip(i as int).drop_first() =~= lines_v.skip(i + 1));
                assert(lines_v.skip(i as int)[0] == lines_v[i as int]);
            }
            i = i + 1;
        }
        proof {
            assert(lines_v.skip(n as int) =~= Seq::<Seq<char>>::empty());
        }
        acc
    }

    /// The detection pipeline's top: the parsed OS-release record when it
    /// holds anything; otherwise the fallback result, when one was
    /// produced.  The fallback argument is only consulted when the parse
    /// is partial.
    pub fn get_distro_information(os_release_text: Option<&str>, fallback: Option<DistroInfo>) -> (r:
        Option<DistroInfo>)
        ensures
            ({
                let parsed = match os_release_text {
                    Some(t) => os_release_info(t@),
                    None => empty_info(),
                };
                match r {
                    Some(info) => (!is_partial_v(parsed) && info@ == parsed) || (is_partial_v(
                        parsed,
                    ) && fallback is Some && info@ == merged_v(parsed, fallback.unwrap()@)),
                    None => is_partial_v(parsed) && fallback is None,
                }
            }),
    {
        let parsed = match os_release_text {
            Some(t) => DistroInfo::get_partial_info(t),
            None => DistroInfo::empty(),
        };
        if parsed.is_partial() {
            match fallback {
                Some(f) => Some(parsed.merged(&f)),
                None => None,
            }
        } else {
            Some(parsed)
        }
    }
}

} // verus!
