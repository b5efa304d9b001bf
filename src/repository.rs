//! Binary package records as ingested from upstream repositories.
use crate::dependency::SingleDependency;
use crate::text::same_text;
use crate::version::DebVersion;
use vstd::prelude::*;

verus! {

/// The fields of a binary package's control paragraph that resolution and locking read,
/// with the paragraph's verbatim text.
#[derive(Clone, Debug)]
pub struct PackageControl {
    pub package: String,
    pub version: DebVersion,
    pub architecture: String,
    pub pre_depends: Vec<Vec<SingleDependency>>,
    pub depends: Vec<Vec<SingleDependency>>,
    pub provides: Vec<Vec<SingleDependency>>,
    pub filename: Option<String>,
    pub size: Option<u64>,
    pub md5sum: Option<String>,
    pub sha1: Option<String>,
    pub sha256: Option<String>,
    pub sha384: Option<String>,
    pub sha512: Option<String>,
    /// The paragraph as it stood in the upstream index.
    pub text: String,
}

pub open spec fn clauses_wf(cs: Seq<Vec<SingleDependency>>) -> bool {
    forall|i: int, j: int| 0 <= i < cs.len() && 0 <= j < cs[i]@.len() ==> (#[trigger] cs[i]@[j]).wf()
}

impl PackageControl {
    /// `Pre-Depends` followed by `Depends`: the clauses resolution must satisfy.
    pub open spec fn requirements(&self) -> Seq<Vec<SingleDependency>> {
        self.pre_depends@ + self.depends@
    }

    pub open spec fn wf(&self) -> bool {
        &&& self.version.wf()
        &&& clauses_wf(self.pre_depends@)
        &&& clauses_wf(self.depends@)
        &&& clauses_wf(self.provides@)
    }
}

/// A control record and the base URL of the repository that listed it.
#[derive(Clone, Debug)]
pub struct BinaryPackage {
    pub control_file: PackageControl,
    pub source_url: String,
}

impl BinaryPackage {
    /// The record's control fields.
    pub fn key(&self) -> (r: &PackageControl)
        ensures
            *r == self.control_file,
    {
        &self.control_file
    }
}

pub open spec fn packages_wf(all: Seq<BinaryPackage>) -> bool {
    forall|i: int| 0 <= i < all.len() ==> (#[trigger] all[i]).control_file.wf()
}

pub open spec fn all_arch() -> Seq<char> {
    seq!['a', 'l', 'l']
}

/// Indices of the records below `n` whose architecture is `arch`, in order.
pub open spec fn indices_with_arch(all: Seq<BinaryPackage>, arch: Seq<char>, n: int) -> Seq<usize>
    decreases n,
{
    if n <= 0 {
        Seq::empty()
    } else {
        let rest = indices_with_arch(all, arch, n - 1);
        if all[n - 1].control_file.architecture@ == arch {
            rest.push((n - 1) as usize)
        } else {
            rest
        }
    }
}

/// The records relevant to `arch`: those of `arch`, then those of `all`.
pub open spec fn relevant_indices(all: Seq<BinaryPackage>, arch: Seq<char>) -> Seq<usize> {
    indices_with_arch(all, arch, all.len() as int) + indices_with_arch(all, all_arch(), all.len() as int)
}

fn indices_of_arch(all: &Vec<BinaryPackage>, arch: &str) -> (r: Vec<usize>)
    ensures
        r@ == indices_with_arch(all@, arch@, all@.len() as int),
{
    let mut r: Vec<usize> = Vec::new();
    let mut i: usize = 0;
    while i < all.len()
        invariant
            i <= all@.len(),
            r@ == indices_with_arch(all@, arch@, i as int),
        decreases all.len() - i,
    {
        if same_text(all[i].control_file.architecture.as_str(), arch) {
            r.push(i);
        }
        i = i + 1;
    }
    r
}

/// Indices of the records that take part in resolving for `architecture`: its own, then
/// those of the pseudo-architecture `all`.
pub fn iterate_all_relevant_packages(all: &Vec<BinaryPackage>, architecture: &str) -> (r: Vec<usize>)
    ensures
        r@ == relevant_indices(all@, architecture@),
        forall|i: int| 0 <= i < r@.len() ==> r@[i] < all@.len(),
{
    let mut r = indices_of_arch(all, architecture);
    let mut s = indices_of_arch(all, "all");
    proof {
        reveal_strlit("all");
        assert("all"@ =~= all_arch());
        lemma_indices_in_bounds(all@, architecture@, all@.len() as int);
        lemma_indices_in_bounds(all@, all_arch(), all@.len() as int);
    }
    r.append(&mut s);
    r
}

pub proof fn lemma_indices_in_bounds(all: Seq<BinaryPackage>, arch: Seq<char>, n: int)
    requires
        n <= all.len(),
    ensures
        forall|i: int| 0 <= i < indices_with_arch(all, arch, n).len() ==> #[trigger] indices_with_arch(all, arch, n)[i] < n,
    decreases n,
{
    if n > 0 {
        lemma_indices_in_bounds(all, arch, n - 1);
        let rest = indices_with_arch(all, arch, n - 1);
        let cur = indices_with_arch(all, arch, n);
        assert forall|i: int| 0 <= i < cur.len() implies #[trigger] cur[i] < n by {
            if i < rest.len() {
                assert(cur[i] == rest[i]);
            }
        }
    }
}


/// A `Packages` index of architecture `arch` is read when it is `all` or one of the
/// repository's configured architectures.
pub open spec fn index_wanted(arch: Seq<char>, configured: Seq<String>) -> bool {
    arch == all_arch() || exists|i: int| 0 <= i < configured.len() && (#[trigger] configured[i])@ == arch
}

/// Whether the `Packages` index of `architecture` is ingested for a repository configured
/// with `configured` architectures.
pub fn wants_index(architecture: &str, configured: &Vec<String>) -> (r: bool)
    ensures
        r == index_wanted(architecture@, configured@),
{
    proof {
        reveal_strlit("all");
        assert("all"@ =~= all_arch());
    }
    if same_text(architecture, "all") {
        return true;
    }
    let mut i: usize = 0;
    while i < configured.len()
        invariant
            i <= configured@.len(),
            architecture@ != all_arch(),
            forall|k: int| 0 <= k < i ==> (#[trigger] configured@[k])@ != architecture@,
        decreases configured.len() - i,
    {
        if same_text(configured[i].as_str(), architecture) {
            return true;
        }
        i = i + 1;
    }
    false
}


fn clauses_ok(cs: &Vec<Vec<SingleDependency>>) -> (r: bool)
    ensures
        r == clauses_wf(cs@),
{
    let mut i: usize = 0;
    while i < cs.len()
        invariant
            i <= cs@.len(),
            forall|a: int, b: int| 0 <= a < i && 0 <= b < cs@[a]@.len() ==> (#[trigger] cs@[a]@[b]).wf(),
        decreases cs.len() - i,
    {
        let mut j: usize = 0;
        while j < cs[i].len()
            invariant
                i < cs@.len(),
                j <= cs@[i as int]@.len(),
                forall|a: int, b: int| 0 <= a < i && 0 <= b < cs@[a]@.len() ==> (#[trigger] cs@[a]@[b]).wf(),
                forall|b: int| 0 <= b < j ==> (#[trigger] cs@[i as int]@[b]).wf(),
            decreases cs@[i as int]@.len() - j,
        {
            if !cs[i][j].is_valid() {
                return false;
            }
            j = j + 1;
        }
        i = i + 1;
    }
    true
}

/// Whether every record is well formed: its version and every version in its `Pre-Depends`,
/// `Depends` and `Provides` can be compared.
pub fn records_wf(all: &Vec<BinaryPackage>) -> (r: bool)
    ensures
        r == packages_wf(all@),
{
    let mut i: usize = 0;
    while i < all.len()
        invariant
            i <= all@.len(),
            forall|k: int| 0 <= k < i ==> (#[trigger] all@[k]).control_file.wf(),
        decreases all.len() - i,
    {
        let c = &all[i].control_file;
        if !(c.version.is_valid() && clauses_ok(&c.pre_depends) && clauses_ok(&c.depends) && clauses_ok(&c.provides)) {
            return false;
        }
        i = i + 1;
    }
    true
}

} // verus!
