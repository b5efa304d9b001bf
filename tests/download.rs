use aptprep::download::{
    basename, check_existing, decode_hex, download_items, plan_downloads, split_url, summarize, verify_digest,
    ContentDigest, DigestAlgorithm, DownloadItem, ExistingFileAction, VerificationError,
};
use aptprep::error::AptPrepError;
use aptprep::lockfile::{Lockfile, LockfileDigest, LockfilePackageEntry};

fn item(d: Vec<u8>) -> DownloadItem {
    DownloadItem {
        base_url: "https://r".to_string(),
        rel_path: "/x.deb".to_string(),
        size: None,
        digest: ContentDigest { algorithm: DigestAlgorithm::Sha256, bytes: d },
        output_path: None,
    }
}

#[test]
fn existing_files_are_kept_deleted_or_fetched() {
    let expected = ContentDigest { algorithm: DigestAlgorithm::Md5, bytes: vec![1, 2] };
    assert_eq!(check_existing(None, &expected), ExistingFileAction::Fetch);
    assert_eq!(check_existing(Some(&vec![1, 2]), &expected), ExistingFileAction::Keep);
    assert_eq!(check_existing(Some(&vec![1, 3]), &expected), ExistingFileAction::DeleteAndFetch);
}

#[test]
fn one_corrupt_artifact_is_fetched_again_the_others_kept() {
    let items = vec![item(vec![1]), item(vec![2]), item(vec![3])];
    let existing = vec![Some(vec![1]), Some(vec![9]), Some(vec![3])];
    assert_eq!(
        plan_downloads(&items, &existing),
        vec![ExistingFileAction::Keep, ExistingFileAction::DeleteAndFetch, ExistingFileAction::Keep]
    );
    let fine = vec![Some(vec![1]), Some(vec![2]), Some(vec![3])];
    assert!(plan_downloads(&items, &fine).iter().all(|a| *a == ExistingFileAction::Keep));
}

#[test]
fn digest_verdict() {
    let expected = ContentDigest { algorithm: DigestAlgorithm::Sha1, bytes: vec![0xab, 0xcd] };
    assert!(verify_digest(&expected, vec![0xab, 0xcd]).is_ok());
    assert_eq!(
        verify_digest(&expected, vec![0xab]),
        Err(VerificationError::VerificationFailed { expected: vec![0xab, 0xcd], actual: vec![0xab] })
    );
}

#[test]
fn hex_and_urls() {
    assert_eq!(decode_hex("0aFF"), Some(vec![0x0a, 0xff]));
    assert_eq!(decode_hex("0g"), None);
    assert_eq!(basename("https://r.example/pool/main/c/curl/curl_8.5_amd64.deb"), "curl_8.5_amd64.deb");
    assert_eq!(split_url("https://r.example/ubuntu/pool/x.deb"), Some(("https://r.example".to_string(), "/ubuntu/pool/x.deb".to_string())));
    assert_eq!(split_url("https://r.example"), Some(("https://r.example".to_string(), "/".to_string())));
    assert_eq!(split_url("no-scheme"), None);
    assert_eq!(split_url("HTTPS://R.Example/a"), Some(("https://r.example".to_string(), "/a".to_string())));
}

#[test]
fn failures_are_counted() {
    assert!(summarize(&vec![true, true]).is_ok());
    match summarize(&vec![false, true, false]) {
        Err(AptPrepError::Download { message }) => assert_eq!(message, "2 downloads failed"),
        other => panic!("unexpected {:?}", other),
    }
    assert!(aptprep::download::should_retry(0, 5));
    assert!(!aptprep::download::should_retry(5, 5));
}

#[test]
fn download_items_follow_the_lockfile() {
    let mut l = Lockfile::new("h".to_string(), vec![]);
    l.packages.push((
        "amd64_curl_8_5".to_string(),
        LockfilePackageEntry {
            name: "curl".to_string(),
            version: "8.5".to_string(),
            architecture: "amd64".to_string(),
            download_url: "https://r.example/ubuntu/pool/curl_8.5_amd64.deb".to_string(),
            size: 10,
            digest: LockfileDigest { algorithm: "SHA256".to_string(), value: "00ff".to_string() },
            dependencies: vec![],
            control_file: String::new(),
        },
    ));
    let items = download_items(&l).unwrap();
    assert_eq!(items.len(), 1);
    assert_eq!(items[0].base_url, "https://r.example");
    assert_eq!(items[0].rel_path, "/ubuntu/pool/curl_8.5_amd64.deb");
    assert_eq!(items[0].output_path, Some("curl_8.5_amd64.deb".to_string()));
    assert_eq!(items[0].digest.bytes, vec![0x00, 0xff]);
    assert_eq!(items[0].digest.algorithm, DigestAlgorithm::Sha256);
    l.packages[0].1.digest.algorithm = "CRC32".to_string();
    assert!(matches!(download_items(&l), Err(AptPrepError::PackageVerification { .. })));
}

#[test]
fn lockfile_digest_from_content() {
    let d = LockfileDigest::from_content(&ContentDigest { algorithm: DigestAlgorithm::Md5, bytes: vec![0x0a, 0xbc] });
    assert_eq!(d.algorithm, "MD5Sum");
    assert_eq!(d.value, "0abc");
    let s = LockfileDigest::from_content(&ContentDigest { algorithm: DigestAlgorithm::Sha512, bytes: vec![] });
    assert_eq!(s.algorithm, "SHA512");
    assert_eq!(s.value, "");
}
