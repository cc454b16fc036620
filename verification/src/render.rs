//! The driver's output, computed as lines: one line per requested field in
//! the fixed order, labelled unless the short format was asked for, with
//! absent fields shown as `n/a`; and the fixed warning line on the error
//! stream when LSB modules were requested but none are available.

use vstd::prelude::*;
use vstd::string::StrSliceExecFns;
use vstd::string::StringExecFns;
use crate::flags::Args;

verus! {

/// The module list joined with colons.
pub open spec fn join_colon(xs: Seq<Seq<char>>) -> Seq<char>
    decreases xs.len(),
{
    if xs.len() == 0 {
        Seq::empty()
    } else if xs.len() == 1 {
        xs[0]
    } else {
        xs[0] + ":"@ + join_colon(xs.drop_first())
    }
}

pub proof fn lemma_join_colon_snoc(s: Seq<Seq<char>>, x: Seq<char>)
    ensures
        join_colon(s.push(x)) == if s.len() == 0 {
            x
        } else {
            join_colon(s) + ":"@ + x
        },
    decreases s.len(),
{
    if s.len() == 0 {
        assert(s.push(x).len() == 1);
        assert(s.push(x)[0] == x);
    } else {
        assert(s.push(x).drop_first() =~= s.drop_first().push(x));
        lemma_join_colon_snoc(s.drop_first(), x);
        if s.len() == 1 {
            assert(join_colon(s) == s[0]);
            assert(s.push(x)[0] == s[0]);
        } else {
            assert(s.push(x)[0] == s[0]);
            assert((s[0] + ":"@ + (join_colon(s.drop_first()) + ":"@ + x)) =~= ((s[0] + ":"@
                + join_colon(s.drop_first())) + ":"@ + x));
        }
    }
}

fn join_colon_exec(v: &Vec<String>) -> (r: String)
    ensures
        r@ == join_colon(v.deep_view()),
{
    let ghost dv = v.deep_view();
    let mut acc = String::new();
    proof {
        assert(dv.take(0) =~= Seq::<Seq<char>>::empty());
    }
    let n = v.len();
    let mut i: usize = 0;
    while i < n
        invariant
            i <= n,
            n == v.deep_view().len(),
            dv == v.deep_view(),
            acc@ == join_colon(dv.take(i as int)),
        decreases n - i,
    {
        proof {
            assert(dv.take(i + 1) =~= dv.take(i as int).push(dv[i as int]));
            lemma_join_colon_snoc(dv.take(i as int), dv[i as int]);
            assert(v@[i as int]@ == dv[i as int]);
        }
        if i > 0 {
            acc.append(":");
        }
        acc.append(v[i].as_str());
        i = i + 1;
    }
    proof {
        assert(dv.take(n as int) =~= dv);
    }
    acc
}

pub open spec fn na_or(v: Option<Seq<char>>) -> Seq<char> {
    match v {
        Some(s) => s,
        None => "n/a"@,
    }
}

/// One scalar field's line: the bare value in short mode, else the label
/// glued to it.
pub open spec fn scalar_line(short: bool, label: Seq<char>, v: Option<Seq<char>>) -> Seq<char> {
    if short {
        na_or(v)
    } else {
        label + na_or(v)
    }
}

/// The module list's line, whose label alone carries a space before the
/// colon.
pub open spec fn modules_line(short: bool, mods: Seq<Seq<char>>) -> Seq<char> {
    if short {
        join_colon(mods)
    } else {
        "LSB Version: \t"@ + join_colon(mods)
    }
}

/// Every standard-output line, in the fixed order: LSB modules,
/// distributor, description, release, codename.
pub open spec fn spec_render_stdout(
    args: Args,
    mods: Option<Seq<Seq<char>>>,
    id: Option<Seq<char>>,
    description: Option<Seq<char>>,
    release: Option<Seq<char>>,
    codename: Option<Seq<char>>,
) -> Seq<Seq<char>> {
    let s = args.show_in_short_format;
    (if args.show_lsb_modules && mods is Some {
        seq![modules_line(s, mods.unwrap())]
    } else {
        Seq::empty()
    }) + (if args.show_distributor {
        seq![scalar_line(s, "Distributor ID:\t"@, id)]
    } else {
        Seq::empty()
    }) + (if args.show_description {
        seq![scalar_line(s, "Description:\t"@, description)]
    } else {
        Seq::empty()
    }) + (if args.show_release {
        seq![scalar_line(s, "Release:\t"@, release)]
    } else {
        Seq::empty()
    }) + (if args.show_codename {
        seq![scalar_line(s, "Codename:\t"@, codename)]
    } else {
        Seq::empty()
    })
}

/// The error stream: exactly the fixed warning, exactly when LSB modules
/// were requested and none are available.
pub open spec fn spec_render_stderr(args: Args, mods: Option<Seq<Seq<char>>>) -> Seq<Seq<char>> {
    if args.show_lsb_modules && mods is None {
        seq!["No LSB modules are available."@]
    } else {
        Seq::empty()
    }
}

pub struct RenderedOutput {
    pub stdout_lines: Vec<String>,
    pub stderr_lines: Vec<String>,
}

fn scalar_line_exec(short: bool, label: &str, v: &Option<String>) -> (r: String)
    ensures
        r@ == scalar_line(short, label@, v.deep_view()),
{
    let val: String = match v {
        Some(s) => s.clone(),
        None => String::from_str("n/a"),
    };
    if short {
        val
    } else {
        let mut l = String::from_str(label);
        l.append(val.as_str());
        l
    }
}

/// Lays the requested fields out as output lines.
pub fn render(
    args: &Args,
    modules: &Option<Vec<String>>,
    id: &Option<String>,
    description: &Option<String>,
    release: &Option<String>,
    codename: &Option<String>,
) -> (r: RenderedOutput)
    ensures
        r.stdout_lines.deep_view() == spec_render_stdout(
            *args,
            modules.deep_view(),
            id.deep_view(),
            description.deep_view(),
            release.deep_view(),
            codename.deep_view(),
        ),
        r.stderr_lines.deep_view() == spec_render_stderr(*args, modules.deep_view()),
{
    let short = args.show_in_short_format;
    let mut out: Vec<String> = Vec::new();
    let mut err: Vec<String> = Vec::new();
    let ghost p1 = if args.show_lsb_modules && modules.deep_view() is Some {
        seq![modules_line(short, modules.deep_view().unwrap())]
    } else {
        Seq::<Seq<char>>::empty()
    };
    if args.show_lsb_modules {
        match modules {
            Some(v) => {
                let joined = join_colon_exec(v);
                if short {
                    out.push(joined);
                } else {
                    let mut l = String::from_str("LSB Version: \t");
                    l.append(joined.as_str());
                    out.push(l);
                }
            },
            None => {
                err.push(String::from_str("No LSB modules are available."));
            },
        }
    }
    proof {
        assert(out.deep_view() =~= p1);
        assert(err.deep_view() =~= spec_render_stderr(*args, modules.deep_view()));
    }
    let ghost p2 = p1 + if args.show_distributor {
        seq![scalar_line(short, "Distributor ID:\t"@, id.deep_view())]
    } else {
        Seq::<Seq<char>>::empty()
    };
    if args.show_distributor {
        out.push(scalar_line_exec(short, "Distributor ID:\t", id));
    }
    proof {
        assert(out.deep_view() =~= p2);
    }
    let ghost p3 = p2 + if args.show_description {
        seq![scalar_line(short, "Description:\t"@, description.deep_view())]
    } else {
        Seq::<Seq<char>>::empty()
    };
    if args.show_description {
        out.push(scalar_line_exec(short, "Description:\t", description));
    }
    proof {
        assert(out.deep_view() =~= p3);
    }
    let ghost p4 = p3 + if args.show_release {
        seq![scalar_line(short, "Release:\t"@, release.deep_view())]
    } else {
        Seq::<Seq<char>>::empty()
    };
    if args.show_release {
        out.push(scalar_line_exec(short, "Release:\t", release));
    }
    proof {
        assert(out.deep_view() =~= p4);
    }
    let ghost p5 = p4 + if args.show_codename {
        seq![scalar_line(short, "Codename:\t"@, codename.deep_view())]
    } else {
        Seq::<Seq<char>>::empty()
    };
    if args.show_codename {
        out.push(scalar_line_exec(short, "Codename:\t", codename));
    }
    proof {
        assert(out.deep_view() =~= p5);
        assert(p5 =~= spec_render_stdout(
            *args,
            modules.deep_view(),
            id.deep_view(),
            description.deep_view(),
            release.deep_view(),
            codename.deep_view(),
        ));
    }
    RenderedOutput { stdout_lines: out, stderr_lines: err }
}

} // verus!
