use lsb_release::apt::{parse_apt_policy, AptGuessConfig};
use lsb_release::debian::{
    dpkg_default_vendor, get_debian_release, guess_debian_release, os_family,
};
use lsb_release::info::DetectError;
use lsb_release::table::CodenameTable;

const DEBIAN_CSV: &str = "version,codename,series,created\n10,Buster,buster,2017\n11,Bullseye,bullseye,2019\n12,Bookworm,bookworm,2021\n";

fn debian_table() -> CodenameTable {
    CodenameTable::get_distro_info("Debian", DEBIAN_CSV).unwrap()
}

#[test]
fn vendor_comes_from_last_vendor_line() {
    let text = "Vendor: Debian\nVendor-URL: https://www.debian.org/\nVendor: Ubuntu\n";
    assert_eq!(dpkg_default_vendor(Some(text)).as_deref(), Some("Ubuntu"));
}

#[test]
fn vendor_header_is_case_insensitive() {
    assert_eq!(dpkg_default_vendor(Some("VENDOR: Devuan\n")).as_deref(), Some("Devuan"));
    assert!(dpkg_default_vendor(Some("Origin: Debian\n")).is_none());
    assert!(dpkg_default_vendor(None).is_none());
}

#[test]
fn os_family_table() {
    assert_eq!(os_family("Linux"), "GNU/Linux");
    assert_eq!(os_family("Hurd"), "GNU/Hurd");
    assert_eq!(os_family("NetBSD"), "GNU/NetBSD");
    assert_eq!(os_family("FreeBSD"), "GNU/kFreeBSD");
    assert_eq!(os_family("GNU/Linux"), "GNU/Linux");
    assert_eq!(os_family("GNU/kFreeBSD"), "GNU/kFreeBSD");
    assert_eq!(os_family("Darwin"), "GNU");
}

#[test]
fn table_sorts_rows_and_extends_debian_order() {
    let t = CodenameTable::get_distro_info(
        "Debian",
        "version,codename,series,created\n12,Bookworm,bookworm,2021\n10,Buster,buster,2017\n11,Bullseye,bullseye,2019\n",
    )
    .unwrap();
    let versions: Vec<&str> = t.rows.iter().map(|r| r.version.as_str()).collect();
    assert_eq!(versions, vec!["10", "11", "12"]);
    let order: Vec<&str> = t.release_order.iter().map(|s| s.as_str()).collect();
    assert_eq!(
        order,
        vec![
            "buster",
            "bullseye",
            "bookworm",
            "stable",
            "proposed-updates",
            "testing",
            "testing-proposed-updates",
            "unstable",
            "sid",
        ]
    );
    assert_eq!(t.testing_sentinel.as_deref(), Some("unknown.new.testing"));
}

#[test]
fn table_keeps_file_order_of_equal_versions() {
    // 7 and 7.0 read as one numeric value; their file order is kept
    let t = CodenameTable::get_distro_info(
        "Ubuntu",
        "version,series\n7.0,second\n6,first\n7,third\n",
    )
    .unwrap();
    let rows: Vec<(&str, &str)> =
        t.rows.iter().map(|r| (r.version.as_str(), r.series.as_str())).collect();
    assert_eq!(rows, vec![("6", "first"), ("7.0", "second"), ("7", "third")]);
}

#[test]
fn table_for_other_vendor_has_no_extension() {
    let t = CodenameTable::get_distro_info("Ubuntu", "version,series\n22.04,jammy\n").unwrap();
    let order: Vec<&str> = t.release_order.iter().map(|s| s.as_str()).collect();
    assert_eq!(order, vec!["jammy"]);
    assert!(t.testing_sentinel.is_none());
}

#[test]
fn table_load_failures_are_malformed_data() {
    // a missing required column
    let r = CodenameTable::get_distro_info("Debian", "version,codename\n11,Bullseye\n");
    assert!(matches!(r, Err(DetectError::MalformedData)));
    // a version that is no decimal numeral
    let r = CodenameTable::get_distro_info("Debian", "version,series\nsid,sid\n");
    assert!(matches!(r, Err(DetectError::MalformedData)));
    // a short record refuses the whole load
    let r = CodenameTable::get_distro_info("Debian", "version,series\n11\n");
    assert!(matches!(r, Err(DetectError::MalformedData)));
}

#[test]
fn lookup_returns_version_field_of_match() {
    let t = debian_table();
    // major of eleven keeps only the major as the key; the version field
    // itself comes back
    assert_eq!(t.lookup_codename("11.5").as_deref(), Some("11"));
    assert!(t.lookup_codename("99.9").is_none());
    assert!(t.lookup_codename("bookworm").is_none());
}

#[test]
fn lookup_below_seven_keeps_major_and_minor() {
    let t = CodenameTable::get_distro_info("Debian", "version,series\n6.10,old\n").unwrap();
    assert_eq!(t.lookup_codename("6.10r3").as_deref(), Some("6.10"));
    assert!(t.lookup_codename("6.1").is_none());
}

#[test]
fn heuristic_numeric_branch() {
    let t = debian_table();
    let (release, codename) = get_debian_release("11.5", &t);
    assert_eq!(release.as_deref(), Some("11.5"));
    assert_eq!(codename.as_deref(), Some("11"));
    // an unknown numeric release falls back to the n/a text
    let (release, codename) = get_debian_release("99.9", &t);
    assert_eq!(release.as_deref(), Some("99.9"));
    assert_eq!(codename.as_deref(), Some("n/a"));
}

#[test]
fn heuristic_sid_suffix_branch() {
    let t = debian_table();
    let (release, codename) = get_debian_release("bookworm/sid", &t);
    assert_eq!(release.as_deref(), Some("bookworm"));
    assert!(codename.is_none());
    // the testing prefix, in any case, leaves both absent
    let (release, codename) = get_debian_release("Testing/sid", &t);
    assert!(release.is_none());
    assert!(codename.is_none());
}

#[test]
fn heuristic_plain_alphabetic_branch() {
    let t = debian_table();
    let (release, codename) = get_debian_release("bookworm", &t);
    assert_eq!(release.as_deref(), Some("bookworm"));
    assert!(codename.is_none());
}

#[test]
fn apt_policy_parse_orders_and_maps_keys() {
    let text = " release v=11.5,o=Debian,a=stable,n=bullseye,l=Debian,c=main\nPackage files:\n release v=12,o=Debian,a=testing,l=Debian,c=main\n";
    let entries = parse_apt_policy(text).unwrap();
    assert_eq!(entries.len(), 2);
    assert_eq!(entries[0].priority, 11);
    assert_eq!(entries[0].policy.version.as_deref(), Some("11.5"));
    assert_eq!(entries[0].policy.origin.as_deref(), Some("Debian"));
    assert_eq!(entries[0].policy.suite.as_deref(), Some("stable"));
    assert_eq!(entries[0].policy.label.as_deref(), Some("Debian"));
    assert_eq!(entries[0].policy.component.as_deref(), Some("main"));
    assert_eq!(entries[1].priority, 12);
}

#[test]
fn apt_policy_negative_priority_and_skips() {
    let text = "release-7\nrelease -7,a=experimental\n";
    // the first line has no space, so it parses a priority and is dropped
    let entries = parse_apt_policy(text).unwrap();
    assert_eq!(entries.len(), 1);
    assert_eq!(entries[0].priority, -7);
    assert_eq!(entries[0].policy.suite.as_deref(), Some("experimental"));
}

#[test]
fn apt_policy_release_line_without_integer_is_an_error() {
    let r = parse_apt_policy("release x=y\n");
    assert!(matches!(r, Err(DetectError::MalformedData)));
}

#[test]
fn apt_guess_tie_break_prefers_testing() {
    let t = debian_table();
    // two surviving entries of one priority, suites stable and testing:
    // with the nine-name order, stable weighs six and testing four, and
    // the smaller weight wins
    let text = "release500 o=Debian,a=stable,l=Debian,c=main\nrelease500 o=Debian,a=testing,l=Debian,c=main\n";
    let entries = parse_apt_policy(text).unwrap();
    let config = AptGuessConfig::debian_defaults();
    let chosen = t.guess_release_from_apt(Some(&entries), &config).unwrap();
    assert_eq!(chosen.suite.as_deref(), Some("testing"));
}

#[test]
fn apt_guess_priority_dominates_weight() {
    let t = debian_table();
    let text = "release900 o=Debian,a=stable,l=Debian,c=main\nrelease500 o=Debian,a=testing,l=Debian,c=main\n";
    let entries = parse_apt_policy(text).unwrap();
    let config = AptGuessConfig::debian_defaults();
    let chosen = t.guess_release_from_apt(Some(&entries), &config).unwrap();
    assert_eq!(chosen.suite.as_deref(), Some("stable"));
}

#[test]
fn apt_guess_filters_ignored_suites_and_labels() {
    let t = debian_table();
    // the experimental suite and a wrong label are both filtered out,
    // leaving only the unstable entry to choose
    let text = "release500 o=Debian,a=experimental,l=Debian,c=main\nrelease400 o=Debian,a=stable,l=NotDebian,c=main\nrelease300 o=Debian,a=unstable,l=Debian,c=main\n";
    let entries = parse_apt_policy(text).unwrap();
    let config = AptGuessConfig::debian_defaults();
    let chosen = t.guess_release_from_apt(Some(&entries), &config).unwrap();
    assert_eq!(chosen.suite.as_deref(), Some("unstable"));
    // nothing surviving leaves no choice
    let none = parse_apt_policy("release500 o=Other,a=stable,l=Other,c=main\n").unwrap();
    assert!(t.guess_release_from_apt(Some(&none), &config).is_none());
    assert!(t.guess_release_from_apt(None, &config).is_none());
}

#[test]
fn apt_guess_alternate_origin_needs_listed_label() {
    let t = debian_table();
    let text = "release300 o=Debian Ports,a=unstable,l=whatever,c=main\n";
    let entries = parse_apt_policy(text).unwrap();
    // with the default label the alternate-origin branch cannot fire
    let defaults = AptGuessConfig::debian_defaults();
    assert!(t.guess_release_from_apt(Some(&entries), &defaults).is_none());
    // asking for one of the listed mirror labels accepts the Ports origin
    let mut config = AptGuessConfig::debian_defaults();
    config.label = "ftp.ports.debian.org".to_string();
    let chosen = t.guess_release_from_apt(Some(&entries), &config).unwrap();
    assert_eq!(chosen.origin.as_deref(), Some("Debian Ports"));
}

#[test]
fn guess_reports_each_missing_input() {
    let line = Some(Some("11.5".to_string()));
    let r = guess_debian_release(None, Some("Linux"), None, line.clone());
    assert!(matches!(r, Err(DetectError::NotFound)));
    let r = guess_debian_release(None, None, Some(DEBIAN_CSV), line.clone());
    assert!(matches!(r, Err(DetectError::ExternalProcessUnavailable)));
    let r = guess_debian_release(None, Some("Linux"), Some(DEBIAN_CSV), None);
    assert!(matches!(r, Err(DetectError::NotFound)));
    let r = guess_debian_release(None, Some("Linux"), Some("version,codename\n1,one\n"), line);
    assert!(matches!(r, Err(DetectError::MalformedData)));
}

#[test]
fn guess_and_finish_without_apt() {
    let g = guess_debian_release(
        Some("Debian".to_string()),
        Some("Linux"),
        Some(DEBIAN_CSV),
        Some(Some("11.5".to_string())),
    )
    .unwrap();
    assert!(!g.needs_apt_policy());
    let info = g.finish(None);
    assert_eq!(info.id.as_deref(), Some("Debian"));
    assert_eq!(info.release.as_deref(), Some("11.5"));
    assert_eq!(info.codename.as_deref(), Some("11"));
    assert_eq!(info.description.as_deref(), Some("Debians GNU/Linuxs 11.5 11"));
}

#[test]
fn guess_finish_uses_apt_for_missing_codename() {
    let g = guess_debian_release(
        Some("Debian".to_string()),
        Some("Linux"),
        Some(DEBIAN_CSV),
        Some(Some("bookworm/sid".to_string())),
    )
    .unwrap();
    assert!(g.needs_apt_policy());
    // a chosen policy without a version and with the testing suite hands
    // back the testing sentinel
    let info = g.finish(Some("release500 o=Debian,a=testing,l=Debian,c=main\n"));
    assert!(info.release.is_none());
    assert_eq!(info.codename.as_deref(), Some("unknown.new.testing"));
    assert_eq!(info.description.as_deref(), Some("Debians GNU/Linuxs unknown.new.testing"));
}

#[test]
fn guess_finish_apt_version_branch() {
    let g = guess_debian_release(
        Some("Debian".to_string()),
        Some("Linux"),
        Some(DEBIAN_CSV),
        Some(Some("bookworm/sid".to_string())),
    )
    .unwrap();
    let info = g.finish(Some("release500 v=11.5,o=Debian,a=stable,l=Debian,c=main\n"));
    assert_eq!(info.release.as_deref(), Some("11.5"));
    assert_eq!(info.codename.as_deref(), Some("11"));
}

#[test]
fn guess_finish_ports_entry_is_filtered_out() {
    let g = guess_debian_release(
        Some("Debian".to_string()),
        Some("Linux"),
        Some(DEBIAN_CSV),
        Some(Some("bookworm/sid".to_string())),
    )
    .unwrap();
    // a report with only a Debian Ports entry offers nothing under the
    // default label, so the heuristic fields stay
    let info = g.finish(Some(
        "release500 v=77,o=Debian Ports,a=whatever,l=ftp.debian-ports.org,c=main\n",
    ));
    assert_eq!(info.release.as_deref(), Some("bookworm"));
    assert!(info.codename.is_none());
}

#[test]
fn guess_finish_version_none_suite_missing_is_sid() {
    let g = guess_debian_release(
        Some("Debian".to_string()),
        Some("Linux"),
        Some(DEBIAN_CSV),
        Some(Some("bookworm/sid".to_string())),
    )
    .unwrap();
    let info = g.finish(Some("release500 o=Debian,l=Debian,c=main\n"));
    assert!(info.release.is_none());
    assert_eq!(info.codename.as_deref(), Some("sid"));
}

#[test]
fn guess_finish_unusable_report_keeps_heuristic_fields() {
    let g = guess_debian_release(
        Some("Debian".to_string()),
        Some("Linux"),
        Some(DEBIAN_CSV),
        Some(Some("bookworm/sid".to_string())),
    )
    .unwrap();
    let info = g.finish(Some("release no-integer-here\n"));
    assert_eq!(info.release.as_deref(), Some("bookworm"));
    assert!(info.codename.is_none());
    assert_eq!(info.description.as_deref(), Some("Debians GNU/Linuxs bookworm"));
}

#[test]
fn guess_unknown_version_line() {
    // an unreadable first line reads as the literal unknown text
    let g = guess_debian_release(
        Some("Debian".to_string()),
        Some("Linux"),
        Some(DEBIAN_CSV),
        Some(None),
    )
    .unwrap();
    let info = g.finish(None);
    assert_eq!(info.release.as_deref(), Some("unknown"));
    assert!(info.codename.is_none());
}
