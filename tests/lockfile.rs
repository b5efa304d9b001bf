use aptprep::dependency::SingleDependency;
use aptprep::error::AptPrepError;
use aptprep::keys::{compose_download_url, generate_package_key, normalize_hex, sanitize_package_key_component};
use aptprep::lockfile::{Lockfile, LOCKFILE_VERSION};
use aptprep::repository::{iterate_all_relevant_packages, BinaryPackage, PackageControl};
use aptprep::version::DebVersion;

fn ldep(name: &str) -> SingleDependency {
    SingleDependency { package: name.to_string(), version_constraint: None, architectures: None }
}

fn lrecord(name: &str, version: &str, arch: &str, depends: Vec<Vec<SingleDependency>>) -> BinaryPackage {
    BinaryPackage {
        control_file: PackageControl {
            package: name.to_string(),
            version: DebVersion::parse(version).unwrap(),
            architecture: arch.to_string(),
            pre_depends: vec![],
            depends,
            provides: vec![],
            filename: Some(format!("./pool/main/{name}_{version}_{arch}.deb")),
            size: Some(1234),
            md5sum: Some("00112233445566778899aabbccddeeff".to_string()),
            sha1: None,
            sha256: Some("ABCDEF0123456789ABCDEF0123456789ABCDEF0123456789ABCDEF0123456789".to_string()),
            sha384: None,
            sha512: None,
            text: format!("Package: {name}\nVersion: {version}\nArchitecture: {arch}\n"),
        },
        source_url: "https://repo.example/ubuntu/".to_string(),
    }
}

#[test]
fn package_key_sanitizes_each_component() {
    assert_eq!(sanitize_package_key_component("libstdc++6"), "libstdc__6");
    assert_eq!(generate_package_key("amd64", "libc6", "2.39-0ubuntu8.4"), "amd64_libc6_2_39_0ubuntu8_4");
    let k = generate_package_key("all", "python3.12", "1:3.12~rc1");
    assert!(k.chars().all(|c| c.is_ascii_alphanumeric() || c == '_'));
}

#[test]
fn download_url_joins_base_and_file() {
    assert_eq!(compose_download_url("https://a.example/ubuntu/", "./pool/x.deb"), "https://a.example/ubuntu/pool/x.deb");
    assert_eq!(compose_download_url("https://a.example/ubuntu//", "pool/x.deb"), "https://a.example/ubuntu/pool/x.deb");
    assert_eq!(compose_download_url("https://a.example/ubuntu", "/pool/x.deb"), "https://a.example/ubuntu/pool/x.deb");
}

#[test]
fn hex_digests_are_lowercased() {
    assert_eq!(normalize_hex("ABcd09"), Some("abcd09".to_string()));
    assert_eq!(normalize_hex("abc"), None);
    assert_eq!(normalize_hex("zz"), None);
}

#[test]
fn new_lockfile_sorts_required_packages() {
    let l = Lockfile::new("h".to_string(), vec!["vim".to_string(), "curl".to_string(), "vim".to_string()]);
    assert_eq!(l.version, LOCKFILE_VERSION);
    assert_eq!(l.required_packages, vec!["curl".to_string(), "vim".to_string()]);
    assert!(l.packages.is_empty());
    assert!(l.package_groups.is_empty());
}

#[test]
fn relevant_packages_are_the_architecture_then_all() {
    let all = vec![lrecord("a", "1.0", "all", vec![]), lrecord("b", "1.0", "amd64", vec![]), lrecord("c", "1.0", "arm64", vec![])];
    assert_eq!(iterate_all_relevant_packages(&all, "amd64"), vec![1, 0]);
    assert_eq!(iterate_all_relevant_packages(&all, "arm64"), vec![2, 0]);
}

#[test]
fn disjunction_with_one_present_alternative_gives_one_edge() {
    let all = vec![
        lrecord("app", "1.0", "amd64", vec![vec![ldep("a"), ldep("b")]]),
        lrecord("b", "2.0", "amd64", vec![]),
    ];
    let mut l = Lockfile::new("h".to_string(), vec!["app".to_string()]);
    l.add_packages("amd64", &vec![0, 1], &all).expect("entries");
    let app = &l.packages.iter().find(|(k, _)| k == "amd64_app_1_0").expect("app entry").1;
    assert_eq!(app.dependencies, vec!["amd64_b_2_0".to_string()]);
    assert_eq!(app.download_url, "https://repo.example/ubuntu/pool/main/app_1.0_amd64.deb");
    assert_eq!(app.digest.algorithm, "SHA256");
    assert_eq!(app.digest.value, "abcdef0123456789abcdef0123456789abcdef0123456789abcdef0123456789");
    assert_eq!(app.size, 1234);
    assert_eq!(app.control_file, "Package: app\nVersion: 1.0\nArchitecture: amd64\n");
}

#[test]
fn edges_prefer_the_highest_satisfying_version() {
    let all = vec![
        lrecord("app", "1.0", "amd64", vec![vec![ldep("lib")]]),
        lrecord("lib", "1.0", "amd64", vec![]),
        lrecord("lib", "2.0", "amd64", vec![]),
    ];
    let mut l = Lockfile::new("h".to_string(), vec![]);
    l.add_packages("amd64", &vec![0, 1, 2], &all).expect("entries");
    let app = &l.packages.iter().find(|(k, _)| k == "amd64_app_1_0").unwrap().1;
    assert_eq!(app.dependencies, vec!["amd64_lib_2_0".to_string()]);
}

#[test]
fn groups_hold_sorted_keys_of_each_name() {
    let all = vec![lrecord("lib", "2.0", "amd64", vec![]), lrecord("lib", "1.0", "amd64", vec![]), lrecord("x", "1", "all", vec![])];
    let mut l = Lockfile::new("h".to_string(), vec![]);
    l.add_packages("amd64", &vec![0, 1, 2], &all).unwrap();
    l.add_packages("arm64", &vec![2], &all).unwrap();
    let lib = &l.package_groups.iter().find(|(n, _)| n == "lib").unwrap().1;
    assert_eq!(lib, &vec!["amd64_lib_1_0".to_string(), "amd64_lib_2_0".to_string()]);
    let x = &l.package_groups.iter().find(|(n, _)| n == "x").unwrap().1;
    assert_eq!(x, &vec!["amd64_x_1".to_string(), "arm64_x_1".to_string()]);
    assert_eq!(l.packages.len(), 4);
}

#[test]
fn adding_twice_is_reproducible() {
    let all = vec![lrecord("app", "1.0", "amd64", vec![vec![ldep("b")]]), lrecord("b", "2.0", "amd64", vec![])];
    let mut l1 = Lockfile::new("h".to_string(), vec!["app".to_string()]);
    let mut l2 = Lockfile::new("h".to_string(), vec!["app".to_string()]);
    l1.add_packages("amd64", &vec![0, 1], &all).unwrap();
    l2.add_packages("amd64", &vec![0, 1], &all).unwrap();
    let k1: Vec<_> = l1.packages.iter().map(|(k, e)| (k.clone(), e.dependencies.clone(), e.download_url.clone())).collect();
    let k2: Vec<_> = l2.packages.iter().map(|(k, e)| (k.clone(), e.dependencies.clone(), e.download_url.clone())).collect();
    assert_eq!(k1, k2);
    assert_eq!(l1.package_groups, l2.package_groups);
}

#[test]
fn missing_size_or_record_is_a_validation_error() {
    let mut r = lrecord("app", "1.0", "amd64", vec![]);
    r.control_file.size = None;
    let all = vec![r];
    let mut l = Lockfile::new("h".to_string(), vec![]);
    assert!(matches!(l.add_packages("amd64", &vec![0], &all), Err(AptPrepError::LockfileValidation { .. })));
    assert!(l.packages.is_empty());
    assert!(matches!(l.add_packages("amd64", &vec![5], &all), Err(AptPrepError::LockfileValidation { .. })));
    let mut r2 = lrecord("app", "1.0", "amd64", vec![]);
    r2.control_file.sha256 = None;
    r2.control_file.md5sum = None;
    assert!(matches!(l.add_packages("amd64", &vec![0], &vec![r2]), Err(AptPrepError::LockfileValidation { .. })));
}

#[test]
fn lockfile_version_two_is_rejected() {
    let mut l = Lockfile::new("h".to_string(), vec![]);
    l.version = 2;
    assert!(matches!(l.check_version(), Err(AptPrepError::LockfileValidation { .. })));
    assert!(Lockfile::new("h".to_string(), vec![]).check_version().is_ok());
}

#[test]
fn entry_accessors_return_name_and_version() {
    let all = vec![lrecord("app", "1.0", "amd64", vec![])];
    let mut l = Lockfile::new("h".to_string(), vec![]);
    l.add_packages("amd64", &vec![0], &all).unwrap();
    let e = &l.packages[0].1;
    assert_eq!(e.package_name().unwrap(), "app");
    assert_eq!(e.package_version().unwrap(), "1.0");
}

#[test]
fn non_ascii_characters_become_one_underscore_per_byte() {
    assert_eq!(sanitize_package_key_component("é"), "__");
    assert_eq!(sanitize_package_key_component("a€b"), "a___b");
    assert_eq!(generate_package_key("amd64", "ñ", "1"), "amd64____1");
}

#[test]
fn unsupported_version_error_names_both_versions() {
    let mut l = Lockfile::new("h".to_string(), vec![]);
    l.version = 2;
    match l.check_version() {
        Err(AptPrepError::LockfileValidation { details }) => {
            assert_eq!(details, "Lockfile version 2 is not supported. Expected version 1")
        },
        other => panic!("unexpected {:?}", other.map(|_| ())),
    }
}

#[test]
fn records_are_checked_before_locking() {
    let ok = vec![lrecord("a", "1.0", "amd64", vec![vec![ldep("b")]])];
    assert!(aptprep::repository::records_wf(&ok));
    let mut bad = lrecord("a", "1.0", "amd64", vec![]);
    bad.control_file.version = DebVersion { text: "99999999999999999999".to_string() };
    assert!(!aptprep::repository::records_wf(&vec![bad]));
}
