use aptprep::dependency::{parse_single_dependency, VersionRange};
use aptprep::version::{compare_versions, DebVersion, DependencyVersionConstraint, VersionRelationship};
use std::cmp::Ordering;

fn v(s: &str) -> DebVersion {
    DebVersion::parse(s).expect("valid version")
}

#[test]
fn debian_order_epoch_upstream_revision() {
    assert_eq!(compare_versions(&v("1.9"), &v("2.0")), Ordering::Less);
    assert_eq!(compare_versions(&v("1:0.1"), &v("2.0")), Ordering::Greater);
    assert_eq!(compare_versions(&v("1.0"), &v("1.0-0")), Ordering::Equal);
    assert_eq!(compare_versions(&v("1.0~rc1"), &v("1.0")), Ordering::Less);
    assert_eq!(compare_versions(&v("1.0-2"), &v("1.0-10")), Ordering::Less);
}

#[test]
fn version_texts_are_checked() {
    assert!(DebVersion::parse("1:2.3-4").is_some());
    assert!(DebVersion::parse("a:1.0").is_none());
    assert!(DebVersion::parse("1.0_1").is_none());
    assert!(DebVersion::parse("99999999999:1.0").is_none());
}

#[test]
fn constraints_admit_by_relation() {
    let c = DependencyVersionConstraint { relationship: VersionRelationship::LaterOrEqual, version: v("2.0") };
    assert!(!c.admits(&v("1.9")));
    assert!(c.admits(&v("2.0")));
    let s = DependencyVersionConstraint { relationship: VersionRelationship::StrictlyEarlier, version: v("2.0") };
    assert!(s.admits(&v("1.9")));
    assert!(!s.admits(&v("2.0")));
}

#[test]
fn range_is_a_conjunction() {
    let mut r = VersionRange::of_constraint(&DependencyVersionConstraint {
        relationship: VersionRelationship::LaterOrEqual,
        version: v("1.0"),
    });
    r.intersect(&VersionRange::of_constraint(&DependencyVersionConstraint {
        relationship: VersionRelationship::StrictlyEarlier,
        version: v("2.0"),
    }));
    assert!(r.contains(&v("1.5")));
    assert!(!r.contains(&v("2.0")));
    assert!(!r.contains(&v("0.9")));
    assert!(VersionRange::full().contains(&v("0.1")));
}

#[test]
fn single_dependency_is_parsed() {
    let d = parse_single_dependency("libc6 (>= 2.34) [amd64 arm64]").expect("parses");
    assert_eq!(d.package, "libc6");
    let c = d.version_constraint.expect("constraint");
    assert_eq!(c.relationship, VersionRelationship::LaterOrEqual);
    assert_eq!(c.version.text, "2.34");
    assert_eq!(d.architectures, Some((false, vec!["amd64".to_string(), "arm64".to_string()])));
    assert!(parse_single_dependency("curl").expect("parses").version_constraint.is_none());
}

#[test]
fn digit_runs_must_fit_in_64_bits() {
    assert!(DebVersion::parse("18446744073709551615").is_some());
    assert!(DebVersion::parse("99999999999999999999").is_none());
    assert!(DebVersion::parse("1.0-99999999999999999999").is_none());
    assert!(parse_single_dependency("x (>= 99999999999999999999)").expect("parses").is_valid() == false);
}

#[test]
fn decimal_rendering() {
    assert_eq!(aptprep::text::decimal_text(0), "0");
    assert_eq!(aptprep::text::decimal_text(1234), "1234");
    assert_eq!(aptprep::text::decimal_text(u64::MAX), "18446744073709551615");
}
