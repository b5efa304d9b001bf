//! The configuration: upstream repositories, requested packages, output.
use sha2::{Digest, Sha256};
use vstd::prelude::*;

verus! {

/// A distribution of a repository: a suite name, or an explicit path below the base URL.
#[derive(Clone, Debug, PartialEq, Eq)]
pub enum DistributionDef {
    Simple(String),
    Advanced { distribution_path: String },
}

#[derive(Clone, Debug, PartialEq, Eq)]
pub struct SourceRepository {
    pub source_url: String,
    pub architectures: Vec<String>,
    pub distributions: Vec<DistributionDef>,
}

#[derive(Clone, Debug, PartialEq, Eq)]
pub struct OutputConfig {
    pub path: Option<String>,
    pub target_architectures: Vec<String>,
}

#[derive(Clone, Debug, PartialEq, Eq)]
pub struct Config {
    pub source_repositories: Vec<SourceRepository>,
    pub packages: Vec<String>,
    pub output: OutputConfig,
}

/// Lower-case hex digits of a byte, two per byte.
pub open spec fn hex_digit_char(n: u8) -> char {
    if n < 10 { ((n + 48) as u8) as char } else { ((n + 87) as u8) as char }
}

pub open spec fn hex_of(b: Seq<u8>) -> Seq<char>
    decreases b.len(),
{
    if b.len() == 0 {
        Seq::empty()
    } else {
        hex_of(b.drop_last()) + seq![hex_digit_char(b.last() / 16), hex_digit_char(b.last() % 16)]
    }
}

/// The SHA-256 digest of a byte string.
pub uninterp spec fn sha256_digest(b: Seq<u8>) -> Seq<u8>;

/// Relies on `sha2::Sha256` (its digest of the bytes, 32 bytes long) and `hex::encode`
/// (two lower-case digits per byte).
#[verifier::external_body]
fn sha256_hex(content: &Vec<u8>) -> (r: String)
    ensures
        r@ == hex_of(sha256_digest(content@)),
        r@.len() == 64,
{
    let mut hasher = Sha256::new();
    hasher.update(content);
    hex::encode(hasher.finalize())
}

/// The configuration fingerprint: the SHA-256 of the configuration file's bytes, in hex.
pub fn config_fingerprint(content: &Vec<u8>) -> (r: String)
    ensures
        r@ == hex_of(sha256_digest(content@)),
        r@.len() == 64,
{
    sha256_hex(content)
}


/// An example configuration: `curl` and `vim` from an Ubuntu snapshot (`noble`, `amd64`).
pub fn create_test_config() -> (r: Config)
    ensures
        r.packages@.len() == 2,
        r.packages@[0]@ == "curl"@,
        r.packages@[1]@ == "vim"@,
        r.source_repositories@.len() == 1,
        r.source_repositories@[0].source_url@ == "https://snapshot.ubuntu.com/ubuntu/20250910T140000Z"@,
        r.source_repositories@[0].architectures@.len() == 1,
        r.source_repositories@[0].architectures@[0]@ == "amd64"@,
        r.source_repositories@[0].distributions@ == seq![DistributionDef::Simple(r.source_repositories@[0].distributions@[0]->Simple_0)],
        r.source_repositories@[0].distributions@[0]->Simple_0@ == "noble"@,
        r.output.target_architectures@.len() == 1,
        r.output.target_architectures@[0]@ == "amd64"@,
        r.output.path matches Some(p) && p@ == "/tmp/test_output"@,
{
    let mut packages = Vec::new();
    packages.push("curl".to_string());
    packages.push("vim".to_string());
    let mut architectures = Vec::new();
    architectures.push("amd64".to_string());
    let mut distributions = Vec::new();
    distributions.push(DistributionDef::Simple("noble".to_string()));
    let mut repos = Vec::new();
    repos.push(SourceRepository {
        source_url: "https://snapshot.ubuntu.com/ubuntu/20250910T140000Z".to_string(),
        architectures,
        distributions,
    });
    let mut targets = Vec::new();
    targets.push("amd64".to_string());
    let r = Config {
        source_repositories: repos,
        packages,
        output: OutputConfig { path: Some("/tmp/test_output".to_string()), target_architectures: targets },
    };
    assert(r.source_repositories@[0].distributions@ =~= seq![DistributionDef::Simple(r.source_repositories@[0].distributions@[0]->Simple_0)]);
    r
}

} // verus!
