//! Debian package versions and version constraints.
use core::cmp::Ordering;
use debian_packaging::package_version::PackageVersion;
use vstd::prelude::*;

verus! {

/// A character allowed by `is_ascii_alphanumeric`.
pub open spec fn is_alnum(c: char) -> bool {
    ('0' <= c && c <= '9') || ('a' <= c && c <= 'z') || ('A' <= c && c <= 'Z')
}

pub open spec fn is_digit(c: char) -> bool {
    '0' <= c && c <= '9'
}

/// Position of the first `c` in `s`, or -1.
pub open spec fn first_index_of(s: Seq<char>, c: char) -> int
    decreases s.len(),
{
    if s.len() == 0 {
        -1
    } else if s[0] == c {
        0
    } else {
        let r = first_index_of(s.drop_first(), c);
        if r < 0 {
            -1
        } else {
            r + 1
        }
    }
}

/// Position of the last `c` in `s`, or -1.
pub open spec fn last_index_of(s: Seq<char>, c: char) -> int
    decreases s.len(),
{
    if s.len() == 0 {
        -1
    } else if s.last() == c {
        s.len() - 1
    } else {
        last_index_of(s.drop_last(), c)
    }
}

/// Decimal value of a string of digits.
pub open spec fn decimal_value(s: Seq<char>) -> nat
    decreases s.len(),
{
    if s.len() == 0 {
        0
    } else {
        decimal_value(s.drop_last()) * 10 + ((s.last() as u32) - ('0' as u32)) as nat
    }
}

/// The epoch text: what precedes the first colon, if there is one.
pub open spec fn epoch_part(s: Seq<char>) -> Seq<char> {
    let p = first_index_of(s, ':');
    if p >= 0 { s.subrange(0, p) } else { Seq::empty() }
}

/// What follows the epoch and its colon.
pub open spec fn after_epoch(s: Seq<char>) -> Seq<char> {
    let p = first_index_of(s, ':');
    if p >= 0 { s.subrange(p + 1, s.len() as int) } else { s }
}

pub open spec fn upstream_part(s: Seq<char>) -> Seq<char> {
    let r = after_epoch(s);
    let q = last_index_of(r, '-');
    if q >= 0 { r.subrange(0, q) } else { r }
}

pub open spec fn has_revision(s: Seq<char>) -> bool {
    last_index_of(after_epoch(s), '-') >= 0
}

pub open spec fn revision_part(s: Seq<char>) -> Seq<char> {
    let r = after_epoch(s);
    r.subrange(last_index_of(r, '-') + 1, r.len() as int)
}

/// The text is a Debian version `[epoch:]upstream[-revision]`: a numeric epoch that fits
/// in 32 bits, an upstream part of alphanumerics and `.+~` (and `-` when a revision
/// follows), a revision of alphanumerics and `.+~`.
pub open spec fn version_text_ok(s: Seq<char>) -> bool {
    &&& first_index_of(s, ':') >= 0 ==> {
        let e = epoch_part(s);
        &&& e.len() > 0
        &&& forall|i: int| 0 <= i < e.len() ==> is_digit(#[trigger] e[i])
        &&& decimal_value(e) <= u32::MAX
    }
    &&& forall|i: int|
        0 <= i < upstream_part(s).len() ==> {
            let c = #[trigger] upstream_part(s)[i];
            is_alnum(c) || c == '.' || c == '+' || c == '~' || (c == '-' && has_revision(s))
        }
    &&& has_revision(s) ==> forall|i: int|
        0 <= i < revision_part(s).len() ==> {
            let c = #[trigger] revision_part(s)[i];
            is_alnum(c) || c == '.' || c == '+' || c == '~'
        }
}

/// The value of the run of digits that ends `s` (0 where `s` does not end in a digit).
pub open spec fn trailing_run(s: Seq<char>) -> nat
    decreases s.len(),
{
    if s.len() > 0 && is_digit(s.last()) {
        trailing_run(s.drop_last()) * 10 + ((s.last() as u32) - ('0' as u32)) as nat
    } else {
        0
    }
}

/// Every run of digits in `s` has a value that fits in 64 bits.
pub open spec fn digit_runs_fit(s: Seq<char>) -> bool {
    forall|k: int| 0 <= k <= s.len() ==> #[trigger] trailing_run(s.subrange(0, k)) <= u64::MAX
}

/// Whether every run of digits of the text fits in 64 bits.
pub fn digit_runs_fit_exec(s: &str) -> (r: bool)
    ensures
        r == digit_runs_fit(s@),
{
    let n = s.unicode_len();
    let mut cur: u64 = 0;
    let mut i: usize = 0;
    assert(s@.subrange(0, 0) =~= Seq::<char>::empty());
    while i < n
        invariant
            n == s@.len(),
            i <= n,
            cur as nat == trailing_run(s@.subrange(0, i as int)),
            forall|k: int| 0 <= k <= i ==> #[trigger] trailing_run(s@.subrange(0, k)) <= u64::MAX,
        decreases n - i,
    {
        let c = s.get_char(i);
        assert(s@.subrange(0, i + 1).drop_last() =~= s@.subrange(0, i as int));
        if '0' <= c && c <= '9' {
            let d = ((c as u32) - ('0' as u32)) as u64;
            if cur > (u64::MAX - d) / 10 {
                assert(trailing_run(s@.subrange(0, i + 1)) > u64::MAX) by (nonlinear_arith)
                    requires
                        trailing_run(s@.subrange(0, i + 1)) == cur as nat * 10 + d as nat,
                        cur > (u64::MAX - d) / 10,
                        d <= 9,
                ;
                return false;
            }
            assert(cur * 10 + d <= u64::MAX) by (nonlinear_arith)
                requires
                    cur <= (u64::MAX - d) / 10,
                    d <= 9,
            ;
            cur = cur * 10 + d;
        } else {
            cur = 0;
        }
        i = i + 1;
    }
    assert(s@.subrange(0, n as int) =~= s@);
    true
}

/// The order `PackageVersion`'s `cmp` gives two version texts (epoch, then upstream part,
/// then revision, each with its collation).
pub uninterp spec fn version_order(a: Seq<char>, b: Seq<char>) -> Ordering;

/// A Debian version, kept as its text.
#[derive(Clone, Debug, PartialEq, Eq, Hash)]
pub struct DebVersion {
    pub text: String,
}

impl DebVersion {
    /// A Debian version whose digit runs fit in 64 bits (longer ones cannot be compared).
    pub open spec fn wf(&self) -> bool {
        version_text_ok(self.text@) && digit_runs_fit(self.text@)
    }

    /// Whether the version is well formed.
    pub fn is_valid(&self) -> (r: bool)
        ensures
            r == self.wf(),
    {
        parses_as_version(self.text.as_str()) && digit_runs_fit_exec(self.text.as_str())
    }

    /// Reads a version text; `None` where it is not a Debian version or a run of its digits
    /// does not fit in 64 bits.
    pub fn parse(text: &str) -> (r: Option<DebVersion>)
        ensures
            r is Some <==> version_text_ok(text@) && digit_runs_fit(text@),
            r matches Some(v) ==> v.text@ == text@ && v.wf(),
    {
        if parses_as_version(text) && digit_runs_fit_exec(text) {
            Some(DebVersion { text: text.to_string() })
        } else {
            None
        }
    }
}

/// Relies on `PackageVersion::parse`: it accepts exactly the texts that `version_text_ok`
/// describes (numeric epoch through `u32::from_str`, character classes of the upstream
/// part and of the revision after the last hyphen).
#[verifier::external_body]
fn parses_as_version(text: &str) -> (r: bool)
    ensures
        r == version_text_ok(text@),
{
    PackageVersion::parse(text).is_ok()
}

/// Relies on `Ord for PackageVersion`: the result depends on the two texts alone. Both must
/// parse, and their digit runs must fit in `u64`, else `cmp` panics.
#[verifier::external_body]
pub fn compare_versions(a: &DebVersion, b: &DebVersion) -> (r: Ordering)
    requires
        a.wf(),
        b.wf(),
    ensures
        r == version_order(a.text@, b.text@),
{
    PackageVersion::parse(&a.text).unwrap().cmp(&PackageVersion::parse(&b.text).unwrap())
}

/// The Debian relations `<<`, `<=`, `=`, `>=`, `>>`.
#[derive(Clone, Copy, Debug, PartialEq, Eq)]
pub enum VersionRelationship {
    StrictlyEarlier,
    EarlierOrEqual,
    ExactlyEqual,
    LaterOrEqual,
    StrictlyLater,
}

#[derive(Clone, Debug, PartialEq, Eq)]
pub struct DependencyVersionConstraint {
    pub relationship: VersionRelationship,
    pub version: DebVersion,
}

/// Whether a relation holds, given the order of the candidate against the bound.
pub open spec fn relation_holds(rel: VersionRelationship, o: Ordering) -> bool {
    match rel {
        VersionRelationship::StrictlyEarlier => o == Ordering::Less,
        VersionRelationship::EarlierOrEqual => o != Ordering::Greater,
        VersionRelationship::ExactlyEqual => o == Ordering::Equal,
        VersionRelationship::LaterOrEqual => o != Ordering::Less,
        VersionRelationship::StrictlyLater => o == Ordering::Greater,
    }
}

/// Version `v` meets constraint `c`.
pub open spec fn satisfies(v: Seq<char>, c: DependencyVersionConstraint) -> bool {
    relation_holds(c.relationship, version_order(v, c.version.text@))
}

impl DependencyVersionConstraint {
    pub open spec fn wf(&self) -> bool {
        self.version.wf()
    }

    /// Whether `v` meets this constraint.
    pub fn admits(&self, v: &DebVersion) -> (r: bool)
        requires
            self.wf(),
            v.wf(),
        ensures
            r == satisfies(v.text@, *self),
    {
        let o = compare_versions(v, &self.version);
        match self.relationship {
            VersionRelationship::StrictlyEarlier => matches!(o, Ordering::Less),
            VersionRelationship::EarlierOrEqual => !matches!(o, Ordering::Greater),
            VersionRelationship::ExactlyEqual => matches!(o, Ordering::Equal),
            VersionRelationship::LaterOrEqual => !matches!(o, Ordering::Less),
            VersionRelationship::StrictlyLater => matches!(o, Ordering::Greater),
        }
    }
}

} // verus!
