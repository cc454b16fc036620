use lsb_release::flags::Args;
use lsb_release::provider::{grub_info, LSBInfo};
use lsb_release::render::render;
use lsb_release::info::DistroInfo;

fn args(v: bool, i: bool, d: bool, r: bool, c: bool, short: bool) -> Args {
    Args {
        show_lsb_modules: v,
        show_distributor: i,
        show_description: d,
        show_release: r,
        show_codename: c,
        show_all: false,
        show_in_short_format: short,
    }
}

#[test]
fn short_release_prints_bare_value() {
    // -s -r with a resolved release prints exactly the value
    let a = args(false, false, false, true, false, true).set_implied_flags();
    let out = render(&a, &None, &None, &None, &Some("22.04".to_string()), &None);
    assert_eq!(out.stdout_lines, vec!["22.04".to_string()]);
    assert!(out.stderr_lines.is_empty());
}

#[test]
fn absent_distributor_prints_na_with_label() {
    // -i with an absent id prints the labelled n/a line
    let a = args(false, true, false, false, false, false).set_implied_flags();
    let out = render(&a, &None, &None, &None, &None, &None);
    assert_eq!(out.stdout_lines, vec!["Distributor ID:\tn/a".to_string()]);
    assert!(out.stderr_lines.is_empty());
}

#[test]
fn modules_line_joins_with_colons() {
    let a = args(true, false, false, false, false, false);
    let mods = Some(vec!["a-1".to_string(), "b-2".to_string()]);
    let out = render(&a, &mods, &None, &None, &None, &None);
    assert_eq!(out.stdout_lines, vec!["LSB Version: \ta-1:b-2".to_string()]);
    let short = args(true, false, false, false, false, true);
    let out = render(&short, &mods, &None, &None, &None, &None);
    assert_eq!(out.stdout_lines, vec!["a-1:b-2".to_string()]);
}

#[test]
fn missing_modules_warn_on_stderr_only() {
    let a = args(true, false, false, false, false, false);
    let out = render(&a, &None, &None, &None, &None, &None);
    assert!(out.stdout_lines.is_empty());
    assert_eq!(out.stderr_lines, vec!["No LSB modules are available.".to_string()]);
}

#[test]
fn all_fields_in_fixed_order() {
    let a = args(true, true, true, true, true, false);
    let mods = Some(vec!["m-1".to_string()]);
    let out = render(
        &a,
        &mods,
        &Some("Debian".to_string()),
        &Some("Debian GNU/Linux 12".to_string()),
        &Some("12".to_string()),
        &Some("bookworm".to_string()),
    );
    assert_eq!(
        out.stdout_lines,
        vec![
            "LSB Version: \tm-1".to_string(),
            "Distributor ID:\tDebian".to_string(),
            "Description:\tDebian GNU/Linux 12".to_string(),
            "Release:\t12".to_string(),
            "Codename:\tbookworm".to_string(),
        ]
    );
}

#[test]
fn provider_serves_snapshot_fields() {
    let info = DistroInfo {
        release: Some("12".to_string()),
        codename: None,
        id: Some("Debian".to_string()),
        description: None,
    };
    let p = grub_info(Some(info), Some(vec!["m-1".to_string()]));
    assert_eq!(p.id().as_deref(), Some("Debian"));
    assert_eq!(p.release().as_deref(), Some("12"));
    assert!(p.codename().is_none());
    assert!(p.description().is_none());
    assert_eq!(p.lsb_version(), Some(vec!["m-1".to_string()]));
    let empty = grub_info(None, None);
    assert!(empty.id().is_none());
    assert!(empty.lsb_version().is_none());
}
