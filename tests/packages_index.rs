use aptprep::lockfile::{Lockfile, LockfileDigest, LockfilePackageEntry};
use aptprep::packages_index::{generate_packages_file_from_lockfile, rewrite_entry, set_field};

fn entry(name: &str) -> LockfilePackageEntry {
    LockfilePackageEntry {
        name: name.to_string(),
        version: "1.0".to_string(),
        architecture: "amd64".to_string(),
        download_url: format!("https://r.example/pool/main/{name}_1.0_amd64.deb"),
        size: 1,
        digest: LockfileDigest { algorithm: "SHA256".to_string(), value: "00".to_string() },
        dependencies: vec![],
        control_file: format!("Package: {name}\nVersion: 1.0\nFilename: pool/main/{name}_1.0_amd64.deb\nSize: 1\n"),
    }
}

#[test]
fn filename_points_into_the_mirror_root() {
    let ps = rewrite_entry(&entry("foo")).expect("parses");
    assert_eq!(ps.len(), 1);
    let f = ps[0].iter().find(|(n, _)| n == "Filename").expect("field");
    assert_eq!(f.1, "./foo_1.0_amd64.deb");
    assert_eq!(ps[0].iter().filter(|(n, _)| n.eq_ignore_ascii_case("filename")).count(), 1);
}

#[test]
fn rewriting_twice_changes_nothing_more() {
    let mut p = vec![("Package".to_string(), "foo".to_string()), ("filename".to_string(), "pool/foo.deb".to_string())];
    set_field(&mut p, "Filename", "./foo.deb".to_string());
    let once = p.clone();
    set_field(&mut p, "Filename", "./foo.deb".to_string());
    assert_eq!(p, once);
    assert_eq!(once, vec![("Package".to_string(), "foo".to_string()), ("Filename".to_string(), "./foo.deb".to_string())]);
}

#[test]
fn index_lists_entries_by_name() {
    let mut l = Lockfile::new("h".to_string(), vec![]);
    l.packages.push(("k2".to_string(), entry("zlib")));
    l.packages.push(("k1".to_string(), entry("curl")));
    let text = generate_packages_file_from_lockfile(&l).expect("index");
    let curl = text.find("Package: curl").expect("curl paragraph");
    let zlib = text.find("Package: zlib").expect("zlib paragraph");
    assert!(curl < zlib);
    assert!(text.contains("Filename: ./curl_1.0_amd64.deb"));
    assert!(!text.contains("pool/main"));
}
