use aptprep::dependency::SingleDependency;
use aptprep::provider::{get_root_dependencies, AptDependencyGraphElement, AptDependencyProvider, RequestedPackages};
use aptprep::repository::{BinaryPackage, PackageControl};
use aptprep::version::{DebVersion, DependencyVersionConstraint, VersionRelationship};

fn pdep(name: &str, c: Option<(VersionRelationship, &str)>) -> SingleDependency {
    SingleDependency {
        package: name.to_string(),
        version_constraint: c.map(|(r, v)| DependencyVersionConstraint { relationship: r, version: DebVersion::parse(v).unwrap() }),
        architectures: None,
    }
}

fn precord(name: &str, version: &str, depends: Vec<Vec<SingleDependency>>, provides: Vec<Vec<SingleDependency>>) -> BinaryPackage {
    BinaryPackage {
        control_file: PackageControl {
            package: name.to_string(),
            version: DebVersion::parse(version).unwrap(),
            architecture: "amd64".to_string(),
            pre_depends: vec![],
            depends,
            provides,
            filename: None,
            size: None,
            md5sum: None,
            sha1: None,
            sha256: None,
            sha384: None,
            sha512: None,
            text: String::new(),
        },
        source_url: "http://r".to_string(),
    }
}

fn versions(p: &AptDependencyProvider, name: &str) -> Vec<String> {
    let i = p.package_index(name).expect("package");
    p.binary_packages[i].dependencies_by_version.iter().map(|e| e.version.text.clone()).collect()
}

#[test]
fn versions_are_kept_in_ascending_order() {
    let all = vec![precord("lib", "2.0", vec![], vec![]), precord("lib", "1.0", vec![], vec![]), precord("lib", "1.5", vec![], vec![])];
    let p = AptDependencyProvider::new(&all, "amd64");
    assert_eq!(versions(&p, "lib"), vec!["1.0", "1.5", "2.0"]);
    assert_eq!(p.choose_version("lib", &vec![true, true, false]), Some(1));
    assert_eq!(p.choose_version("lib", &vec![false, false, false]), None);
    assert_eq!(p.choose_version("nothing", &vec![true]), None);
}

#[test]
fn unsatisfiable_version_requirement_leaves_no_candidate() {
    let all = vec![
        precord("app", "1.0", vec![vec![pdep("libX", Some((VersionRelationship::LaterOrEqual, "2.0")))]], vec![]),
        precord("libX", "1.9", vec![], vec![]),
    ];
    let p = AptDependencyProvider::new(&all, "amd64");
    let deps = p.get_dependencies("app", &DebVersion::parse("1.0").unwrap()).expect("app known");
    assert_eq!(deps.len(), 1);
    assert_eq!(deps[0].element, AptDependencyGraphElement::AptPackage("libX".to_string()));
    let i = p.package_index("libX").unwrap();
    let member: Vec<bool> = p.binary_packages[i].dependencies_by_version.iter().map(|e| deps[0].range.contains(&e.version)).collect();
    assert_eq!(p.choose_version("libX", &member), None);
}

#[test]
fn disjunction_with_one_present_alternative_is_a_plain_requirement() {
    let all = vec![precord("app", "1.0", vec![vec![pdep("a", None), pdep("b", None)]], vec![]), precord("b", "1.0", vec![], vec![])];
    let p = AptDependencyProvider::new(&all, "amd64");
    let deps = p.get_dependencies("app", &DebVersion::parse("1.0").unwrap()).unwrap();
    assert_eq!(deps.len(), 1);
    assert_eq!(deps[0].element, AptDependencyGraphElement::AptPackage("b".to_string()));
    assert!(p.dummy_packages.is_empty());
}

#[test]
fn disjunction_with_two_alternatives_becomes_a_dummy_package() {
    let all = vec![
        precord("app", "1.0", vec![vec![pdep("a", None), pdep("b", None)]], vec![]),
        precord("a", "1.0", vec![], vec![]),
        precord("b", "1.0", vec![], vec![]),
    ];
    let p = AptDependencyProvider::new(&all, "amd64");
    let deps = p.get_dependencies("app", &DebVersion::parse("1.0").unwrap()).unwrap();
    assert_eq!(deps.len(), 1);
    let key = match &deps[0].element {
        AptDependencyGraphElement::DummyPackage(k) => k.clone(),
        other => panic!("expected a dummy package, got {:?}", other),
    };
    assert_eq!(key.package_name, "app");
    assert_eq!(key.i, 0);
    assert_eq!(p.choose_alternative(&key, &vec![true, true]), Some(0));
    assert_eq!(p.choose_alternative(&key, &vec![false, true]), Some(1));
    let second = p.get_dummy_dependencies(&key, 1).unwrap();
    assert_eq!(second.element, AptDependencyGraphElement::AptPackage("b".to_string()));
}

#[test]
fn unsolvable_clause_drops_the_version() {
    let all = vec![precord("app", "1.0", vec![vec![pdep("missing", None)]], vec![]), precord("app", "0.9", vec![], vec![])];
    let p = AptDependencyProvider::new(&all, "amd64");
    assert_eq!(versions(&p, "app"), vec!["0.9"]);
}

#[test]
fn virtual_packages_resolve_to_their_providers() {
    let all = vec![
        precord("app", "1.0", vec![vec![pdep("mail-transport-agent", None)]], vec![]),
        precord("postfix", "3.8", vec![], vec![vec![pdep("mail-transport-agent", None)]]),
    ];
    let p = AptDependencyProvider::new(&all, "amd64");
    let deps = p.get_dependencies("app", &DebVersion::parse("1.0").unwrap()).unwrap();
    assert_eq!(deps.len(), 1);
    assert_eq!(deps[0].element, AptDependencyGraphElement::AptPackage("postfix".to_string()));
    assert_eq!(deps[0].range.constraints.len(), 1);
    assert_eq!(deps[0].range.constraints[0].relationship, VersionRelationship::ExactlyEqual);
    assert_eq!(deps[0].range.constraints[0].version.text, "3.8");
}

#[test]
fn root_requirements_and_back_translation() {
    let all = vec![precord("curl", "8.5", vec![], vec![])];
    let p = AptDependencyProvider::new(&all, "amd64");
    let root = RequestedPackages { requested_packages: vec!["curl (>= 8.0)".to_string()] };
    let deps = get_root_dependencies(&root).unwrap();
    assert_eq!(deps.len(), 1);
    assert_eq!(deps[0].element, AptDependencyGraphElement::AptPackage("curl".to_string()));
    let solution = vec![
        (AptDependencyGraphElement::RequestedPackages(root.clone()), DebVersion::parse("1.0.0").unwrap()),
        (AptDependencyGraphElement::AptPackage("curl".to_string()), DebVersion::parse("8.5").unwrap()),
    ];
    assert_eq!(p.collect_resolved(&solution), vec![0]);
    assert_eq!(p.get_control("curl", &DebVersion::parse("8.5").unwrap()), Some(0));
    assert!(get_root_dependencies(&RequestedPackages { requested_packages: vec!["bad (>= x:1.0)".to_string()] }).is_err());
}

#[test]
fn clauses_with_fewer_solutions_come_first() {
    let all = vec![
        precord("app", "1.0", vec![vec![pdep("a", None), pdep("b", None)], vec![pdep("c", None)]], vec![]),
        precord("a", "1.0", vec![], vec![]),
        precord("b", "1.0", vec![], vec![]),
        precord("c", "1.0", vec![], vec![]),
    ];
    let p = AptDependencyProvider::new(&all, "amd64");
    let deps = p.get_dependencies("app", &DebVersion::parse("1.0").unwrap()).unwrap();
    assert_eq!(deps.len(), 2);
    assert_eq!(deps[0].element, AptDependencyGraphElement::AptPackage("c".to_string()));
    assert!(matches!(deps[1].element, AptDependencyGraphElement::DummyPackage(_)));
    assert_eq!(all[0].key().package, "app");
}
