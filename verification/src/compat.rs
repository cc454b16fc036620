//! The LSB compatibility table: which specification versions a module at
//! a given version satisfies.  A version outside the table passes through
//! unchanged, as a singleton.

use vstd::prelude::*;
use vstd::string::StringExecFns;
use crate::strutil::str_eq;

verus! {

/// The exact compatibility table.  Any version not listed maps to the
/// singleton of itself.
pub open spec fn spec_valid_lsb_versions(version: Seq<char>, module: Seq<char>) -> Seq<Seq<char>> {
    if version == "3.0"@ {
        seq!["2.0"@, "3.0"@]
    } else if version == "3.1"@ {
        if module == "desktop"@ || module == "qt4"@ {
            seq!["3.1"@]
        } else if module == "cxx"@ {
            seq!["3.0"@]
        } else {
            seq!["2.0"@, "3.0"@, "3.1"@]
        }
    } else if version == "3.2"@ {
        if module == "desktop"@ {
            seq!["3.1"@, "3.2"@]
        } else if module == "qt4"@ {
            seq!["3.1"@]
        } else if module == "printing"@ || module == "languages"@ || module == "multimedia"@ {
            seq!["3.2"@]
        } else if module == "cxx"@ {
            seq!["3.0"@, "3.1"@, "3.2"@]
        } else {
            seq!["2.0"@, "3.0"@, "3.1"@, "3.2"@]
        }
    } else if version == "4.0"@ {
        if module == "desktop"@ {
            seq!["3.1"@, "3.2"@, "4.0"@]
        } else if module == "qt4"@ {
            seq!["3.1"@]
        } else if module == "printing"@ || module == "languages"@ || module == "multimedia"@ {
            seq!["3.2"@, "4.0"@]
        } else if module == "security"@ {
            seq!["4.0"@]
        } else if module == "cxx"@ {
            seq!["3.0"@, "3.1"@, "3.2"@, "4.0"@]
        } else {
            seq!["2.0"@, "3.0"@, "3.1"@, "3.2"@, "4.0"@]
        }
    } else if version == "4.1"@ {
        if module == "desktop"@ {
            seq!["3.1"@, "3.2"@, "4.0"@, "4.1"@]
        } else if module == "qt4"@ {
            seq!["3.1"@]
        } else if module == "printing"@ || module == "languages"@ || module == "multimedia"@ {
            seq!["3.2"@, "4.0"@, "4.1"@]
        } else if module == "security"@ {
            seq!["4.0"@, "4.1"@]
        } else if module == "cxx"@ {
            seq!["3.0"@, "3.1"@, "3.2"@, "4.0"@, "4.1"@]
        } else {
            seq!["2.0"@, "3.0"@, "3.1"@, "3.2"@, "4.0"@, "4.1"@]
        }
    } else {
        seq![version]
    }
}

fn v1(a: &str) -> (r: Vec<String>)
    ensures
        r.deep_view() =~= seq![a@],
{
    let mut r: Vec<String> = Vec::new();
    r.push(String::from_str(a));
    proof {
        assert(r.deep_view() =~= seq![a@]);
    }
    r
}

fn v2(a: &str, b: &str) -> (r: Vec<String>)
    ensures
        r.deep_view() =~= seq![a@, b@],
{
    let mut r = v1(a);
    let ghost prev = r.deep_view();
    r.push(String::from_str(b));
    proof {
        assert(r.deep_view() =~= prev.push(b@));
    }
    r
}

fn v3(a: &str, b: &str, c: &str) -> (r: Vec<String>)
    ensures
        r.deep_view() =~= seq![a@, b@, c@],
{
    let mut r = v2(a, b);
    let ghost prev = r.deep_view();
    r.push(String::from_str(c));
    proof {
        assert(r.deep_view() =~= prev.push(c@));
    }
    r
}

fn v4(a: &str, b: &str, c: &str, d: &str) -> (r: Vec<String>)
    ensures
        r.deep_view() =~= seq![a@, b@, c@, d@],
{
    let mut r = v3(a, b, c);
    let ghost prev = r.deep_view();
    r.push(String::from_str(d));
    proof {
        assert(r.deep_view() =~= prev.push(d@));
    }
    r
}

fn v5(a: &str, b: &str, c: &str, d: &str, e: &str) -> (r: Vec<String>)
    ensures
        r.deep_view() =~= seq![a@, b@, c@, d@, e@],
{
    let mut r = v4(a, b, c, d);
    let ghost prev = r.deep_view();
    r.push(String::from_str(e));
    proof {
        assert(r.deep_view() =~= prev.push(e@));
    }
    r
}

fn v6(a: &str, b: &str, c: &str, d: &str, e: &str, f: &str) -> (r: Vec<String>)
    ensures
        r.deep_view() =~= seq![a@, b@, c@, d@, e@, f@],
{
    let mut r = v5(a, b, c, d, e);
    let ghost prev = r.deep_view();
    r.push(String::from_str(f));
    proof {
        assert(r.deep_view() =~= prev.push(f@));
    }
    r
}

/// The set of LSB specification versions that `module` at `version`
/// satisfies, per the fixed compatibility table; an unrecognised version
/// is handed back alone.
pub fn valid_lsb_versions(version: &str, module: &str) -> (r: Vec<String>)
    ensures
        r.deep_view() == spec_valid_lsb_versions(version@, module@),
{
    let r = if str_eq(version, "3.0") {
        v2("2.0", "3.0")
    } else if str_eq(version, "3.1") {
        if str_eq(module, "desktop") || str_eq(module, "qt4") {
            v1("3.1")
        } else if str_eq(module, "cxx") {
            v1("3.0")
        } else {
            v3("2.0", "3.0", "3.1")
        }
    } else if str_eq(version, "3.2") {
        if str_eq(module, "desktop") {
            v2("3.1", "3.2")
        } else if str_eq(module, "qt4") {
            v1("3.1")
        } else if str_eq(module, "printing") || str_eq(module, "languages") || str_eq(
            module,
            "multimedia",
        ) {
            v1("3.2")
        } else if str_eq(module, "cxx") {
            v3("3.0", "3.1", "3.2")
        } else {
            v4("2.0", "3.0", "3.1", "3.2")
        }
    } else if str_eq(version, "4.0") {
        if str_eq(module, "desktop") {
            v3("3.1", "3.2", "4.0")
        } else if str_eq(module, "qt4") {
            v1("3.1")
        } else if str_eq(module, "printing") || str_eq(module, "languages") || str_eq(
            module,
            "multimedia",
        ) {
            v2("3.2", "4.0")
        } else if str_eq(module, "security") {
            v1("4.0")
        } else if str_eq(module, "cxx") {
            v4("3.0", "3.1", "3.2", "4.0")
        } else {
            v5("2.0", "3.0", "3.1", "3.2", "4.0")
        }
    } else if str_eq(version, "4.1") {
        if str_eq(module, "desktop") {
            v4("3.1", "3.2", "4.0", "4.1")
        } else if str_eq(module, "qt4") {
            v1("3.1")
        } else if str_eq(module, "printing") || str_eq(module, "languages") || str_eq(
            module,
            "multimedia",
        ) {
            v3("3.2", "4.0", "4.1")
        } else if str_eq(module, "security") {
            v2("4.0", "4.1")
        } else if str_eq(module, "cxx") {
            v5("3.0", "3.1", "3.2", "4.0", "4.1")
        } else {
            v6("2.0", "3.0", "3.1", "3.2", "4.0", "4.1")
        }
    } else {
        let mut one: Vec<String> = Vec::new();
        one.push(String::from_str(version));
        proof {
            assert(one.deep_view() =~= seq![version@]);
        }
        one
    };
    proof {
        assert(r.deep_view() =~= spec_valid_lsb_versions(version@, module@));
    }
    r
}

} // verus!
