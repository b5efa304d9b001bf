//! Download planning and digest verification.
use crate::error::AptPrepError;
use crate::keys::{is_hex_digit, normalized_hex};
use crate::config::hex_of;
use crate::lockfile::{Lockfile, LockfileDigest, LockfilePackageEntry};
use crate::text::{decimal, decimal_text, push_char, same_text};
use crate::version::last_index_of;
use vstd::prelude::*;
use vstd::string::*;

verus! {

/// The digest algorithms a lockfile may name.
#[derive(Clone, Copy, Debug, PartialEq, Eq)]
pub enum DigestAlgorithm {
    Md5,
    Sha1,
    Sha256,
    Sha384,
    Sha512,
}

/// An expected digest: its algorithm and bytes.
#[derive(Clone, Debug)]
pub struct ContentDigest {
    pub algorithm: DigestAlgorithm,
    pub bytes: Vec<u8>,
}

/// The algorithm a lockfile tag names.
pub open spec fn algorithm_of(tag: Seq<char>) -> Option<DigestAlgorithm> {
    if tag == seq!['M', 'D', '5', 'S', 'u', 'm'] {
        Some(DigestAlgorithm::Md5)
    } else if tag == seq!['S', 'H', 'A', '1'] {
        Some(DigestAlgorithm::Sha1)
    } else if tag == seq!['S', 'H', 'A', '2', '5', '6'] {
        Some(DigestAlgorithm::Sha256)
    } else if tag == seq!['S', 'H', 'A', '3', '8', '4'] {
        Some(DigestAlgorithm::Sha384)
    } else if tag == seq!['S', 'H', 'A', '5', '1', '2'] {
        Some(DigestAlgorithm::Sha512)
    } else {
        None
    }
}

/// The algorithm of a lockfile tag.
pub fn parse_algorithm(tag: &str) -> (r: Option<DigestAlgorithm>)
    ensures
        r == algorithm_of(tag@),
{
    proof {
        reveal_strlit("MD5Sum");
        reveal_strlit("SHA1");
        reveal_strlit("SHA256");
        reveal_strlit("SHA384");
        reveal_strlit("SHA512");
        assert("MD5Sum"@ =~= seq!['M', 'D', '5', 'S', 'u', 'm']);
        assert("SHA1"@ =~= seq!['S', 'H', 'A', '1']);
        assert("SHA256"@ =~= seq!['S', 'H', 'A', '2', '5', '6']);
        assert("SHA384"@ =~= seq!['S', 'H', 'A', '3', '8', '4']);
        assert("SHA512"@ =~= seq!['S', 'H', 'A', '5', '1', '2']);
    }
    if same_text(tag, "MD5Sum") {
        Some(DigestAlgorithm::Md5)
    } else if same_text(tag, "SHA1") {
        Some(DigestAlgorithm::Sha1)
    } else if same_text(tag, "SHA256") {
        Some(DigestAlgorithm::Sha256)
    } else if same_text(tag, "SHA384") {
        Some(DigestAlgorithm::Sha384)
    } else if same_text(tag, "SHA512") {
        Some(DigestAlgorithm::Sha512)
    } else {
        None
    }
}

pub open spec fn hex_value(c: char) -> u8 {
    if '0' <= c && c <= '9' {
        ((c as u32) - ('0' as u32)) as u8
    } else if 'a' <= c && c <= 'f' {
        ((c as u32) - ('a' as u32) + 10) as u8
    } else {
        ((c as u32) - ('A' as u32) + 10) as u8
    }
}

/// The bytes a hex text stands for, two digits per byte.
pub open spec fn hex_bytes(s: Seq<char>) -> Seq<u8> {
    Seq::new(s.len() / 2, |i: int| (hex_value(s[2 * i]) * 16 + hex_value(s[2 * i + 1])) as u8)
}

fn hex_digit_value(c: char) -> (r: u8)
    requires
        is_hex_digit(c),
    ensures
        r == hex_value(c),
        r < 16,
{
    if '0' <= c && c <= '9' {
        ((c as u32) - ('0' as u32)) as u8
    } else if 'a' <= c && c <= 'f' {
        ((c as u32) - ('a' as u32) + 10) as u8
    } else {
        ((c as u32) - ('A' as u32) + 10) as u8
    }
}

/// The bytes of a hex digest; `None` where the text is not an even number of hex digits.
pub fn decode_hex(s: &str) -> (r: Option<Vec<u8>>)
    ensures
        r is Some <==> normalized_hex(s@) is Some,
        r matches Some(b) ==> b@ == hex_bytes(s@),
{
    let n = s.unicode_len();
    if n % 2 != 0 {
        return None;
    }
    let mut out: Vec<u8> = Vec::new();
    let mut i: usize = 0;
    while i < n / 2
        invariant
            n == s@.len(),
            n % 2 == 0,
            i <= n / 2,
            forall|k: int| 0 <= k < 2 * i ==> is_hex_digit(#[trigger] s@[k]),
            out@ =~= hex_bytes(s@).subrange(0, i as int),
        decreases n / 2 - i,
    {
        let a = s.get_char(2 * i);
        let b = s.get_char(2 * i + 1);
        let ok_a = ('0' <= a && a <= '9') || ('a' <= a && a <= 'f') || ('A' <= a && a <= 'F');
        let ok_b = ('0' <= b && b <= '9') || ('a' <= b && b <= 'f') || ('A' <= b && b <= 'F');
        if !ok_a || !ok_b {
            proof {
                if !ok_a {
                    assert(!is_hex_digit(s@[2 * i as int]));
                } else {
                    assert(!is_hex_digit(s@[2 * i + 1]));
                }
            }
            return None;
        }
        let x = hex_digit_value(a);
        let y = hex_digit_value(b);
        out.push(x * 16 + y);
        assert forall|k: int| 0 <= k < 2 * (i + 1) implies is_hex_digit(#[trigger] s@[k]) by {
            if k >= 2 * i {
                if k == 2 * i {
                } else {
                }
            }
        }
        i = i + 1;
    }
    assert(hex_bytes(s@).subrange(0, (n / 2) as int) =~= hex_bytes(s@));
    Some(out)
}

/// Failure of a digest check.
#[derive(Clone, Debug, PartialEq, Eq)]
pub enum VerificationError {
    VerificationFailed { expected: Vec<u8>, actual: Vec<u8> },
}

/// Whether two byte strings are equal.
pub fn same_bytes(a: &Vec<u8>, b: &Vec<u8>) -> (r: bool)
    ensures
        r == (a@ == b@),
{
    if a.len() != b.len() {
        return false;
    }
    let mut i: usize = 0;
    while i < a.len()
        invariant
            a@.len() == b@.len(),
            i <= a@.len(),
            forall|k: int| 0 <= k < i ==> a@[k] == b@[k],
        decreases a.len() - i,
    {
        if a[i] != b[i] {
            return false;
        }
        i = i + 1;
    }
    assert(a@ =~= b@);
    true
}

/// The verdict on a computed digest: `Ok` when it equals the expected one.
pub fn verify_digest(expected: &ContentDigest, actual: Vec<u8>) -> (r: Result<(), VerificationError>)
    ensures
        r is Ok <==> actual@ == expected.bytes@,
        r matches Err(VerificationError::VerificationFailed { expected: e, actual: a }) ==> e@ == expected.bytes@ && a@ == actual@,
{
    if same_bytes(&actual, &expected.bytes) {
        Ok(())
    } else {
        let mut e: Vec<u8> = Vec::new();
        let mut i: usize = 0;
        while i < expected.bytes.len()
            invariant
                i <= expected.bytes@.len(),
                e@ =~= expected.bytes@.subrange(0, i as int),
            decreases expected.bytes.len() - i,
        {
            e.push(expected.bytes[i]);
            i = i + 1;
        }
        assert(expected.bytes@.subrange(0, i as int) =~= expected.bytes@);
        Err(VerificationError::VerificationFailed { expected: e, actual })
    }
}

/// What to do with an artifact given what is on disk.
#[derive(Clone, Copy, Debug, PartialEq, Eq)]
pub enum ExistingFileAction {
    /// No file: fetch it.
    Fetch,
    /// The file has the expected digest: keep it, fetch nothing.
    Keep,
    /// The file has another digest: delete it, then fetch.
    DeleteAndFetch,
}

/// The decision for one artifact: `existing` is the digest of the file already at the output
/// path, computed with the expected algorithm, or `None` where there is no file.
pub open spec fn existing_action(existing: Option<Seq<u8>>, expected: Seq<u8>) -> ExistingFileAction {
    match existing {
        None => ExistingFileAction::Fetch,
        Some(d) => if d == expected { ExistingFileAction::Keep } else { ExistingFileAction::DeleteAndFetch },
    }
}

/// Decides what to do with one artifact.
pub fn check_existing(existing: Option<&Vec<u8>>, expected: &ContentDigest) -> (r: ExistingFileAction)
    ensures
        r == existing_action(match existing { Some(d) => Some(d@), None => None }, expected.bytes@),
{
    match existing {
        None => ExistingFileAction::Fetch,
        Some(d) => if same_bytes(d, &expected.bytes) { ExistingFileAction::Keep } else { ExistingFileAction::DeleteAndFetch },
    }
}

/// One artifact to fetch: from `base_url` + `rel_path`, to `output_path` (else `rel_path`)
/// below the output directory.
#[derive(Clone, Debug)]
pub struct DownloadItem {
    pub base_url: String,
    pub rel_path: String,
    pub size: Option<u64>,
    pub digest: ContentDigest,
    pub output_path: Option<String>,
}

pub open spec fn existing_view(e: Seq<Option<Vec<u8>>>) -> Seq<Option<Seq<u8>>> {
    e.map_values(|o: Option<Vec<u8>>| match o { Some(d) => Some(d@), None => None })
}

/// The decisions for all artifacts, one per item.
pub fn plan_downloads(items: &Vec<DownloadItem>, existing: &Vec<Option<Vec<u8>>>) -> (r: Vec<ExistingFileAction>)
    requires
        existing@.len() == items@.len(),
    ensures
        r@.len() == items@.len(),
        forall|i: int| 0 <= i < r@.len() ==> #[trigger] r@[i] == existing_action(existing_view(existing@)[i], items@[i].digest.bytes@),
{
    let mut r: Vec<ExistingFileAction> = Vec::new();
    let mut i: usize = 0;
    while i < items.len()
        invariant
            existing@.len() == items@.len(),
            i <= items@.len(),
            r@.len() == i,
            forall|k: int| 0 <= k < i ==> #[trigger] r@[k] == existing_action(existing_view(existing@)[k], items@[k].digest.bytes@),
        decreases items.len() - i,
    {
        let a = match &existing[i] {
            Some(d) => check_existing(Some(d), &items[i].digest),
            None => check_existing(None, &items[i].digest),
        };
        r.push(a);
        i = i + 1;
    }
    r
}

/// Running the downloads again over an unchanged directory of correct files fetches nothing.
pub proof fn lemma_download_idempotent(items: Seq<DownloadItem>, existing: Seq<Option<Seq<u8>>>)
    requires
        existing.len() == items.len(),
        forall|i: int| 0 <= i < items.len() ==> #[trigger] existing[i] == Some(items[i].digest.bytes@),
    ensures
        forall|i: int| 0 <= i < items.len() ==> #[trigger] existing_action(existing[i], items[i].digest.bytes@) == ExistingFileAction::Keep,
{
}

/// Where one artifact was corrupted and the others are correct, exactly that one is fetched
/// again, after its file is deleted.
pub proof fn lemma_corruption_recovery(items: Seq<DownloadItem>, existing: Seq<Option<Seq<u8>>>, bad: int)
    requires
        existing.len() == items.len(),
        0 <= bad < items.len(),
        existing[bad] is Some && existing[bad] != Some(items[bad].digest.bytes@),
        forall|i: int| 0 <= i < items.len() && i != bad ==> #[trigger] existing[i] == Some(items[i].digest.bytes@),
    ensures
        existing_action(existing[bad], items[bad].digest.bytes@) == ExistingFileAction::DeleteAndFetch,
        forall|i: int| 0 <= i < items.len() && i != bad ==> #[trigger] existing_action(existing[i], items[i].digest.bytes@) == ExistingFileAction::Keep,
{
}

/// The number of failed outcomes among the first `n`.
pub open spec fn failures(outcomes: Seq<bool>, n: int) -> nat
    decreases n,
{
    if n <= 0 {
        0
    } else {
        failures(outcomes, n - 1) + if outcomes[n - 1] { 0nat } else { 1nat }
    }
}

/// The outcome of a pass: `Ok` when every item succeeded, else an error that gives the
/// number of failed items, as in `3 downloads failed`.
pub fn summarize(outcomes: &Vec<bool>) -> (r: Result<(), AptPrepError>)
    ensures
        r is Ok <==> forall|i: int| 0 <= i < outcomes@.len() ==> #[trigger] outcomes@[i],
        r matches Err(e) ==> e matches AptPrepError::Download { message } && message@ == decimal(
            failures(outcomes@, outcomes@.len() as int),
        ) + " downloads failed"@,
{
    let mut count: u64 = 0;
    let mut i: usize = 0;
    while i < outcomes.len()
        invariant
            i <= outcomes@.len(),
            count as nat == failures(outcomes@, i as int),
            count <= i,
            (count == 0) <==> forall|k: int| 0 <= k < i ==> #[trigger] outcomes@[k],
        decreases outcomes.len() - i,
    {
        if !outcomes[i] {
            count = count + 1;
        }
        i = i + 1;
    }
    if count == 0 {
        Ok(())
    } else {
        let mut message = decimal_text(count);
        message.append(" downloads failed");
        Err(AptPrepError::Download { message })
    }
}

/// What `reqwest::Url::parse` reads from a URL, where it accepts it: the scheme, the host
/// (empty where there is none) and the path.
pub uninterp spec fn url_components(s: Seq<char>) -> Option<(Seq<char>, Seq<char>, Seq<char>)>;

/// Relies on `reqwest::Url::parse` and the `scheme`, `host_str` and `path` of the result.
#[verifier::external_body]
fn parse_url(s: &str) -> (r: Option<(String, String, String)>)
    ensures
        match r {
            Some((a, b, c)) => url_components(s@) == Some((a@, b@, c@)),
            None => url_components(s@) is None,
        },
{
    reqwest::Url::parse(s).ok().map(|u| (u.scheme().to_string(), u.host_str().unwrap_or("").to_string(), u.path().to_string()))
}

/// A URL as `scheme://host` and its path.
pub open spec fn url_parts(s: Seq<char>) -> Option<(Seq<char>, Seq<char>)> {
    match url_components(s) {
        Some((scheme, host, path)) => Some((scheme + seq![':', '/', '/'] + host, path)),
        None => None,
    }
}

/// What follows the last `/`.
pub open spec fn last_segment(s: Seq<char>) -> Seq<char> {
    s.subrange(last_index_of(s, '/') + 1, s.len() as int)
}

proof fn lemma_last_index_bounds(s: Seq<char>, c: char)
    ensures
        -1 <= last_index_of(s, c) < s.len(),
        last_index_of(s, c) >= 0 ==> s[last_index_of(s, c)] == c,
    decreases s.len(),
{
    if s.len() > 0 && s.last() != c {
        lemma_last_index_bounds(s.drop_last(), c);
    }
}

/// The last segment of a URL or path.
pub fn basename(s: &str) -> (r: String)
    ensures
        r@ == last_segment(s@),
{
    let n = s.unicode_len();
    let mut i: usize = n;
    assert(s@.subrange(0, n as int) =~= s@);
    while i > 0 && s.get_char(i - 1) != '/'
        invariant
            i <= n,
            n == s@.len(),
            last_index_of(s@, '/') == last_index_of(s@.subrange(0, i as int), '/'),
        decreases i,
    {
        assert(s@.subrange(0, i as int).drop_last() =~= s@.subrange(0, i - 1));
        i = i - 1;
    }
    proof {
        assert(s@.subrange(0, n as int) =~= s@);
        if i > 0 {
            assert(s@.subrange(0, i as int).last() == '/');
        }
        lemma_last_index_bounds(s@, '/');
    }
    s.substring_char(i, n).to_string()
}

/// Splits a URL into `scheme://host` and its path.
pub fn split_url(s: &str) -> (r: Option<(String, String)>)
    ensures
        match r {
            Some((b, p)) => url_parts(s@) == Some((b@, p@)),
            None => url_parts(s@) is None,
        },
{
    match parse_url(s) {
        None => None,
        Some((scheme, host, path)) => {
            let mut base = scheme;
            base.append("://");
            base.append(host.as_str());
            proof {
                reveal_strlit("://");
                assert("://"@ =~= seq![':', '/', '/']);
            }
            Some((base, path))
        },
    }
}

/// The download item of a lockfile entry, or an error naming what it cannot read.
pub open spec fn item_ok(e: LockfilePackageEntry) -> bool {
    &&& algorithm_of(e.digest.algorithm@) is Some
    &&& normalized_hex(e.digest.value@) is Some
    &&& url_parts(e.download_url@) is Some
}

/// The item fetches the entry's URL to the file named by its last segment and checks the
/// entry's digest.
pub open spec fn item_of(e: LockfilePackageEntry, it: DownloadItem) -> bool {
    &&& url_parts(e.download_url@) == Some((it.base_url@, it.rel_path@))
    &&& it.size == Some(e.size)
    &&& Some(it.digest.algorithm) == algorithm_of(e.digest.algorithm@)
    &&& it.digest.bytes@ == hex_bytes(e.digest.value@)
    &&& it.output_path matches Some(o) && o@ == last_segment(e.download_url@)
}

/// The download item of one entry.
pub fn download_item(e: &LockfilePackageEntry) -> (r: Result<DownloadItem, AptPrepError>)
    ensures
        r is Ok <==> item_ok(*e),
        r matches Ok(it) ==> item_of(*e, it),
        r matches Err(x) ==> x is PackageVerification || x is Download,
{
    let algorithm = match parse_algorithm(e.digest.algorithm.as_str()) {
        Some(a) => a,
        None => return Err(AptPrepError::PackageVerification {
            package: e.name.clone(),
            expected: "supported digest algorithm".to_string(),
            actual: e.digest.algorithm.clone(),
        }),
    };
    let bytes = match decode_hex(e.digest.value.as_str()) {
        Some(b) => b,
        None => return Err(AptPrepError::PackageVerification {
            package: e.name.clone(),
            expected: "hex digest".to_string(),
            actual: e.digest.value.clone(),
        }),
    };
    let (base_url, rel_path) = match split_url(e.download_url.as_str()) {
        Some(x) => x,
        None => return Err(AptPrepError::Download { message: "Invalid download URL".to_string() }),
    };
    let filename = basename(e.download_url.as_str());
    Ok(DownloadItem {
        base_url,
        rel_path,
        size: Some(e.size),
        digest: ContentDigest { algorithm, bytes },
        output_path: Some(filename),
    })
}

/// The download items of a lockfile, one per entry, in the lockfile's order.
pub fn download_items(lockfile: &Lockfile) -> (r: Result<Vec<DownloadItem>, AptPrepError>)
    ensures
        r is Ok <==> forall|i: int| 0 <= i < lockfile.packages@.len() ==> item_ok(#[trigger] lockfile.packages@[i].1),
        r matches Ok(items) ==> items@.len() == lockfile.packages@.len() && forall|i: int|
            0 <= i < items@.len() ==> item_of(lockfile.packages@[i].1, #[trigger] items@[i]),
{
    let mut items: Vec<DownloadItem> = Vec::new();
    let mut i: usize = 0;
    while i < lockfile.packages.len()
        invariant
            i <= lockfile.packages@.len(),
            items@.len() == i,
            forall|k: int| 0 <= k < i ==> item_ok(#[trigger] lockfile.packages@[k].1),
            forall|k: int| 0 <= k < i ==> item_of(lockfile.packages@[k].1, #[trigger] items@[k]),
        decreases lockfile.packages.len() - i,
    {
        match download_item(&lockfile.packages[i].1) {
            Ok(it) => items.push(it),
            Err(e) => return Err(e),
        }
        i = i + 1;
    }
    Ok(items)
}


/// The lockfile tag of an algorithm.
pub open spec fn algorithm_tag(a: DigestAlgorithm) -> Seq<char> {
    match a {
        DigestAlgorithm::Md5 => seq!['M', 'D', '5', 'S', 'u', 'm'],
        DigestAlgorithm::Sha1 => seq!['S', 'H', 'A', '1'],
        DigestAlgorithm::Sha256 => seq!['S', 'H', 'A', '2', '5', '6'],
        DigestAlgorithm::Sha384 => seq!['S', 'H', 'A', '3', '8', '4'],
        DigestAlgorithm::Sha512 => seq!['S', 'H', 'A', '5', '1', '2'],
    }
}

/// Relies on `hex::encode`: two lower-case hex digits per byte.
#[verifier::external_body]
fn encode_hex(bytes: &Vec<u8>) -> (r: String)
    ensures
        r@ == hex_of(bytes@),
{
    hex::encode(bytes)
}

impl LockfileDigest {
    /// The lockfile form of a digest: its algorithm tag and its bytes in lower-case hex.
    pub fn from_content(digest: &ContentDigest) -> (r: LockfileDigest)
        ensures
            r.algorithm@ == algorithm_tag(digest.algorithm),
            r.value@ == hex_of(digest.bytes@),
            algorithm_of(r.algorithm@) == Some(digest.algorithm),
    {
        proof {
            reveal_strlit("MD5Sum");
            reveal_strlit("SHA1");
            reveal_strlit("SHA256");
            reveal_strlit("SHA384");
            reveal_strlit("SHA512");
        }
        let algorithm = match digest.algorithm {
            DigestAlgorithm::Md5 => "MD5Sum".to_string(),
            DigestAlgorithm::Sha1 => "SHA1".to_string(),
            DigestAlgorithm::Sha256 => "SHA256".to_string(),
            DigestAlgorithm::Sha384 => "SHA384".to_string(),
            DigestAlgorithm::Sha512 => "SHA512".to_string(),
        };
        assert(algorithm@ =~= algorithm_tag(digest.algorithm));
        LockfileDigest { algorithm, value: encode_hex(&digest.bytes) }
    }
}


/// Whether a fetch that failed is tried again: `attempt` counts the retries made so far, and
/// at most `max_retries` are made.
pub fn should_retry(attempt: usize, max_retries: usize) -> (r: bool)
    ensures
        r == (attempt < max_retries),
{
    attempt < max_retries
}

} // verus!
