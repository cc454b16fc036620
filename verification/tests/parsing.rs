use lsb_release::compat::valid_lsb_versions;
use lsb_release::flags::Args;
use lsb_release::info::DistroInfo;
use lsb_release::modules::lsb_version;

fn svec(xs: &[&str]) -> Vec<String> {
    xs.iter().map(|s| s.to_string()).collect()
}

#[test]
fn expand_desktop_four_one() {
    assert_eq!(valid_lsb_versions("4.1", "desktop"), svec(&["3.1", "3.2", "4.0", "4.1"]));
}

#[test]
fn expand_three_zero_any_module() {
    assert_eq!(valid_lsb_versions("3.0", "anything"), svec(&["2.0", "3.0"]));
}

#[test]
fn expand_unknown_version_passes_through() {
    assert_eq!(valid_lsb_versions("9.9", "x"), svec(&["9.9"]));
}

#[test]
fn expand_cxx_and_qt4_rows() {
    assert_eq!(valid_lsb_versions("3.1", "cxx"), svec(&["3.0"]));
    assert_eq!(valid_lsb_versions("4.0", "qt4"), svec(&["3.1"]));
    assert_eq!(valid_lsb_versions("4.1", "security"), svec(&["4.0", "4.1"]));
    assert_eq!(valid_lsb_versions("3.2", "printing"), svec(&["3.2"]));
}

fn base_args() -> Args {
    Args {
        show_lsb_modules: false,
        show_distributor: false,
        show_description: false,
        show_release: false,
        show_codename: false,
        show_all: false,
        show_in_short_format: false,
    }
}

#[test]
fn no_flags_defaults_to_lsb_modules() {
    let a = base_args().set_implied_flags();
    assert!(a.show_lsb_modules);
    assert!(!a.show_distributor);
    assert!(!a.show_description);
    assert!(!a.show_release);
    assert!(!a.show_codename);
}

#[test]
fn all_forces_all_five() {
    let mut a = base_args();
    a.show_all = true;
    let a = a.set_implied_flags();
    assert!(a.show_lsb_modules);
    assert!(a.show_distributor);
    assert!(a.show_description);
    assert!(a.show_release);
    assert!(a.show_codename);
}

#[test]
fn explicit_flags_suppress_default() {
    let mut a = base_args();
    a.show_description = true;
    a.show_release = true;
    let a = a.set_implied_flags();
    assert!(!a.show_lsb_modules);
    assert!(a.show_description);
    assert!(a.show_release);
    assert!(!a.show_distributor);
    assert!(!a.show_codename);
}

#[test]
fn os_release_parse_ubuntu() {
    let text = "ID=ubuntu\nVERSION_ID=\"22.04\"\nPRETTY_NAME=\"Ubuntu 22.04 LTS\"\nVERSION_CODENAME=jammy\n";
    let info = DistroInfo::get_partial_info(text);
    assert_eq!(info.id.as_deref(), Some("Ubuntu"));
    assert_eq!(info.release.as_deref(), Some("22.04"));
    assert_eq!(info.description.as_deref(), Some("Ubuntu 22.04 LTS"));
    assert_eq!(info.codename.as_deref(), Some("jammy"));
    assert!(!info.is_partial());
}

#[test]
fn os_release_complete_skips_fallback() {
    let text = "ID=ubuntu\nVERSION_ID=\"22.04\"\nPRETTY_NAME=\"Ubuntu 22.04 LTS\"\nVERSION_CODENAME=jammy\n";
    // no fallback is supplied: a non-partial parse must come back as is
    let got = DistroInfo::get_distro_information(Some(text), None).unwrap();
    assert_eq!(got.id.as_deref(), Some("Ubuntu"));
    assert_eq!(got.codename.as_deref(), Some("jammy"));
}

#[test]
fn os_release_ignores_blank_and_foreign_lines() {
    let text = "\nNAME=Ubuntu\nno_equals_line_is_skipped\nVERSION_ID=\n ID = arch \n";
    // empty VERSION_ID value is skipped; spaces around the key keep it
    // from matching a recognised name
    let info = DistroInfo::get_partial_info(text);
    assert!(info.release.is_none());
    assert!(info.id.is_none());
}

#[test]
fn os_release_missing_file_is_partial() {
    assert!(DistroInfo::get_distro_information(None, None).is_none());
}

#[test]
fn merged_prefers_first() {
    let a = DistroInfo {
        release: Some("1".to_string()),
        codename: None,
        id: None,
        description: None,
    };
    let b = DistroInfo {
        release: Some("2".to_string()),
        codename: Some("two".to_string()),
        id: None,
        description: None,
    };
    let m = a.merged(&b);
    assert_eq!(m.release.as_deref(), Some("1"));
    assert_eq!(m.codename.as_deref(), Some("two"));
    assert!(m.id.is_none());
}

#[test]
fn module_query_line_expands_and_sorts() {
    let out = "4.1-1 lsb-core-amd64 (= 4.1), lsb-desktop-amd64\n";
    let got = lsb_version(Some(out)).unwrap();
    assert_eq!(
        got,
        svec(&[
            "cores-4.1s-amd64s",
            "desktops-3.1s-amd64s",
            "desktops-3.2s-amd64s",
            "desktops-4.0s-amd64s",
            "desktops-4.1s-amd64s",
        ])
    );
}

#[test]
fn module_query_revision_splitters() {
    // '+' and '~' also cut the revision, '-' first among them
    let got = lsb_version(Some("3.0+b1 lsb-core-i386\n")).unwrap();
    assert_eq!(got, svec(&["cores-2.0s-i386s", "cores-3.0s-i386s"]));
    let got = lsb_version(Some("9.9~rc1 lsb-graphics-arm64\n")).unwrap();
    assert_eq!(got, svec(&["graphicss-9.9s-arm64s"]));
}

#[test]
fn module_query_deduplicates_across_lines() {
    let out = "4.1 lsb-core-amd64 (= 4.1)\n4.0-7 lsb-core-amd64 (= 4.1)\n";
    let got = lsb_version(Some(out)).unwrap();
    assert_eq!(got, svec(&["cores-4.1s-amd64s"]));
}

#[test]
fn module_query_empty_or_missing_output() {
    assert!(lsb_version(None).is_none());
    assert!(lsb_version(Some("")).is_none());
    // output with no matching provides item yields nothing
    assert!(lsb_version(Some("1.0 something-else\n")).is_none());
}
