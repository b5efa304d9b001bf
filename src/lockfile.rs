//! The lockfile: resolved packages by key, package groups, and the builder.
use crate::dependency::{arch_applies, arch_matches, SingleDependency};
use crate::error::AptPrepError;
use crate::keys::{
    key_well_formed, lemma_package_key_well_formed, compose_download_url, download_url_of, generate_package_key, normalize_hex, normalized_hex,
    package_key, pick_digest, strongest_digest,
};
use crate::repository::{packages_wf, BinaryPackage, PackageControl};
use crate::text::{decimal, decimal_text, insert_sorted, remove_sorted, sorted_unique, strictly_sorted, texts_of};
use crate::version::{compare_versions, satisfies, version_order};
use core::cmp::Ordering;
use vstd::prelude::*;

verus! {

/// The lockfile format this library reads and writes.
pub const LOCKFILE_VERSION: u32 = 1;

#[derive(Clone, Debug, PartialEq, Eq)]
pub struct LockfileDigest {
    pub algorithm: String,
    pub value: String,
}

/// One resolved package.
#[derive(Clone, Debug)]
pub struct LockfilePackageEntry {
    pub name: String,
    pub version: String,
    pub architecture: String,
    pub download_url: String,
    pub size: u64,
    pub digest: LockfileDigest,
    /// Keys of the entries this one depends on.
    pub dependencies: Vec<String>,
    /// The verbatim control paragraph.
    pub control_file: String,
}

/// What an entry holds, as plain values.
pub struct EntryView {
    pub name: Seq<char>,
    pub version: Seq<char>,
    pub architecture: Seq<char>,
    pub download_url: Seq<char>,
    pub size: u64,
    pub algorithm: Seq<char>,
    pub value: Seq<char>,
    pub dependencies: Seq<Seq<char>>,
    pub control_file: Seq<char>,
}

pub open spec fn texts(v: Seq<String>) -> Seq<Seq<char>> {
    v.map_values(|s: String| s@)
}

impl LockfilePackageEntry {
    pub open spec fn view_entry(&self) -> EntryView {
        EntryView {
            name: self.name@,
            version: self.version@,
            architecture: self.architecture@,
            download_url: self.download_url@,
            size: self.size,
            algorithm: self.digest.algorithm@,
            value: self.digest.value@,
            dependencies: texts(self.dependencies@),
            control_file: self.control_file@,
        }
    }

    /// The package name.
    pub fn package_name(&self) -> (r: Result<String, AptPrepError>)
        ensures
            r matches Ok(n) && n@ == self.name@,
    {
        Ok(self.name.clone())
    }

    /// The package version.
    pub fn package_version(&self) -> (r: Result<String, AptPrepError>)
        ensures
            r matches Ok(v) && v@ == self.version@,
    {
        Ok(self.version.clone())
    }
}

/// The packages of a lockfile by key; a later pair for a key replaces an earlier one.
pub open spec fn packages_view(p: Seq<(String, LockfilePackageEntry)>) -> Map<Seq<char>, EntryView>
    decreases p.len(),
{
    if p.len() == 0 {
        Map::empty()
    } else {
        packages_view(p.drop_last()).insert(p.last().0@, p.last().1.view_entry())
    }
}

pub open spec fn keys_unique(p: Seq<(String, LockfilePackageEntry)>) -> bool {
    forall|i: int, j: int| 0 <= i < j < p.len() ==> (#[trigger] p[i]).0@ != (#[trigger] p[j]).0@
}

pub proof fn lemma_packages_view_has(p: Seq<(String, LockfilePackageEntry)>, k: Seq<char>)
    ensures
        packages_view(p).contains_key(k) <==> exists|i: int| 0 <= i < p.len() && (#[trigger] p[i]).0@ == k,
    decreases p.len(),
{
    if p.len() > 0 {
        lemma_packages_view_has(p.drop_last(), k);
        if exists|i: int| 0 <= i < p.len() && (#[trigger] p[i]).0@ == k {
            let i = choose|i: int| 0 <= i < p.len() && (#[trigger] p[i]).0@ == k;
            if i < p.len() - 1 {
                assert(p.drop_last()[i] == p[i]);
            }
        }
        if exists|i: int| 0 <= i < p.drop_last().len() && (#[trigger] p.drop_last()[i]).0@ == k {
            let i = choose|i: int| 0 <= i < p.drop_last().len() && (#[trigger] p.drop_last()[i]).0@ == k;
            assert(p[i] == p.drop_last()[i]);
        }
    }
}

pub proof fn lemma_packages_view_update(p: Seq<(String, LockfilePackageEntry)>, i: int, x: (String, LockfilePackageEntry))
    requires
        keys_unique(p),
        0 <= i < p.len(),
        p[i].0@ == x.0@,
    ensures
        packages_view(p.update(i, x)) == packages_view(p).insert(x.0@, x.1.view_entry()),
        keys_unique(p.update(i, x)),
    decreases p.len(),
{
    let q = p.update(i, x);
    assert forall|a: int, b: int| 0 <= a < b < q.len() implies (#[trigger] q[a]).0@ != (#[trigger] q[b]).0@ by {
        assert(p[a].0@ != p[b].0@);
    }
    if i == p.len() - 1 {
        assert(q.drop_last() =~= p.drop_last());
        assert(packages_view(q) =~= packages_view(p).insert(x.0@, x.1.view_entry()));
    } else {
        assert(q.drop_last() =~= p.drop_last().update(i, x));
        assert forall|a: int, b: int| 0 <= a < b < p.drop_last().len() implies (#[trigger] p.drop_last()[a]).0@ != (#[trigger] p.drop_last()[b]).0@ by {
            assert(p[a].0@ != p[b].0@);
        }
        lemma_packages_view_update(p.drop_last(), i, x);
        assert(p.last().0@ != x.0@) by {
            assert(p[i].0@ != p[p.len() - 1].0@);
        }
        assert(packages_view(q) =~= packages_view(p).insert(x.0@, x.1.view_entry()));
    }
}

/// The package groups are well formed: names are distinct, each group is sorted without
/// repeats, and each group holds exactly the keys of the entries of its name.
pub open spec fn groups_correct(view: Map<Seq<char>, EntryView>, groups: Seq<(String, Vec<String>)>) -> bool {
    &&& forall|i: int, j: int| 0 <= i < j < groups.len() ==> (#[trigger] groups[i]).0@ != (#[trigger] groups[j]).0@
    &&& forall|i: int| 0 <= i < groups.len() ==> strictly_sorted((#[trigger] groups[i]).1@)
    &&& forall|i: int| 0 <= i < groups.len() ==> texts_of((#[trigger] groups[i]).1@) == Set::new(
        |k: Seq<char>| view.contains_key(k) && view[k].name == groups[i].0@,
    )
    &&& forall|k: Seq<char>| #[trigger] view.contains_key(k) ==> exists|i: int| 0 <= i < groups.len() && (#[trigger] groups[i]).0@ == view[k].name
}

/// Every dependency edge names an entry of the lockfile.
pub open spec fn edges_closed(view: Map<Seq<char>, EntryView>) -> bool {
    forall|k: Seq<char>, d: int| #[trigger] view.contains_key(k) && 0 <= d < view[k].dependencies.len()
        ==> view.contains_key(#[trigger] view[k].dependencies[d])
}

/// A resolved set of packages with their digests and download coordinates.
#[derive(Debug)]
pub struct Lockfile {
    pub version: u32,
    /// The fingerprint of the configuration the lockfile solves.
    pub config_hash: String,
    /// The top-level packages asked for, sorted, without repeats.
    pub required_packages: Vec<String>,
    /// Entries by package key.
    pub packages: Vec<(String, LockfilePackageEntry)>,
    /// Package keys by package name.
    pub package_groups: Vec<(String, Vec<String>)>,
}

impl Lockfile {
    pub open spec fn view_packages(&self) -> Map<Seq<char>, EntryView> {
        packages_view(self.packages@)
    }

    pub open spec fn wf(&self) -> bool {
        &&& keys_unique(self.packages@)
        &&& groups_correct(self.view_packages(), self.package_groups@)
        &&& strictly_sorted(self.required_packages@)
    }

    /// An empty lockfile of the current format for a configuration fingerprint and its
    /// requested packages (kept sorted, without repeats).
    pub fn new(config_hash: String, required_packages: Vec<String>) -> (r: Lockfile)
        ensures
            r.version == LOCKFILE_VERSION,
            r.config_hash == config_hash,
            strictly_sorted(r.required_packages@),
            texts_of(r.required_packages@) == texts_of(required_packages@),
            r.packages@.len() == 0,
            r.package_groups@.len() == 0,
            r.wf(),
            edges_closed(r.view_packages()),
    {
        let r = Lockfile {
            version: LOCKFILE_VERSION,
            config_hash,
            required_packages: sorted_unique(&required_packages),
            packages: Vec::new(),
            package_groups: Vec::new(),
        };
        assert(r.view_packages() =~= Map::empty());
        r
    }
}


/// The record of the `t`-th resolved package.
pub open spec fn rec(all: Seq<BinaryPackage>, resolved: Seq<usize>, t: int) -> PackageControl {
    all[resolved[t] as int].control_file
}

pub open spec fn resolved_ok(all: Seq<BinaryPackage>, resolved: Seq<usize>) -> bool {
    &&& packages_wf(all)
    &&& forall|t: int| 0 <= t < resolved.len() ==> #[trigger] resolved[t] < all.len()
}

/// The `t`-th resolved package has the dependency's name and a version meeting its constraint.
pub open spec fn hits(all: Seq<BinaryPackage>, resolved: Seq<usize>, dep: SingleDependency, t: int) -> bool {
    &&& rec(all, resolved, t).package@ == dep.package@
    &&& match dep.version_constraint {
        Some(c) => satisfies(rec(all, resolved, t).version.text@, c),
        None => true,
    }
}

/// Among the first `n` resolved packages, the highest-versioned one that the dependency
/// accepts (the first of equal ones).
pub open spec fn best_hit(all: Seq<BinaryPackage>, resolved: Seq<usize>, dep: SingleDependency, n: int) -> Option<int>
    decreases n,
{
    if n <= 0 {
        None
    } else {
        let b = best_hit(all, resolved, dep, n - 1);
        if hits(all, resolved, dep, n - 1) && (b is None || version_order(
            rec(all, resolved, n - 1).version.text@,
            rec(all, resolved, b.unwrap()).version.text@,
        ) == Ordering::Greater) {
            Some(n - 1)
        } else {
            b
        }
    }
}

/// The edge of a `Depends` clause: the best package of the first alternative (among the
/// first `n`) that applies on `arch` and has one.
pub open spec fn clause_edge(all: Seq<BinaryPackage>, resolved: Seq<usize>, arch: Seq<char>, clause: Seq<SingleDependency>, n: int) -> Option<int>
    decreases n,
{
    if n <= 0 {
        None
    } else {
        let e = clause_edge(all, resolved, arch, clause, n - 1);
        if e is Some {
            e
        } else if arch_applies(clause[n - 1], arch) {
            best_hit(all, resolved, clause[n - 1], resolved.len() as int)
        } else {
            None
        }
    }
}

pub open spec fn key_at(all: Seq<BinaryPackage>, resolved: Seq<usize>, arch: Seq<char>, t: int) -> Seq<char> {
    package_key(arch, rec(all, resolved, t).package@, rec(all, resolved, t).version.text@)
}

/// The dependency keys of the first `n` clauses of `Depends`: one per resolved clause, in
/// order, without repeats.
pub open spec fn edges_of(all: Seq<BinaryPackage>, resolved: Seq<usize>, arch: Seq<char>, depends: Seq<Vec<SingleDependency>>, n: int) -> Seq<Seq<char>>
    decreases n,
{
    if n <= 0 {
        Seq::empty()
    } else {
        let prev = edges_of(all, resolved, arch, depends, n - 1);
        match clause_edge(all, resolved, arch, depends[n - 1]@, depends[n - 1]@.len() as int) {
            Some(t) => {
                let k = key_at(all, resolved, arch, t);
                if prev.contains(k) { prev } else { prev.push(k) }
            },
            None => prev,
        }
    }
}

/// The entry of the `t`-th resolved package; `None` where its record lacks a file name,
/// a size or a readable digest.
pub open spec fn entry_result(all: Seq<BinaryPackage>, resolved: Seq<usize>, arch: Seq<char>, t: int) -> Option<EntryView> {
    let c = rec(all, resolved, t);
    let d = strongest_digest(c);
    if c.filename is None || c.size is None || d is None || normalized_hex(d.unwrap().1) is None {
        None
    } else {
        Some(EntryView {
            name: c.package@,
            version: c.version.text@,
            architecture: arch,
            download_url: download_url_of(all[resolved[t] as int].source_url@, c.filename.unwrap()@),
            size: c.size.unwrap(),
            algorithm: d.unwrap().0,
            value: normalized_hex(d.unwrap().1).unwrap(),
            dependencies: edges_of(all, resolved, arch, c.depends@, c.depends@.len() as int),
            control_file: c.text@,
        })
    }
}

/// The packages after adding the entries of the first `n` resolved packages.
pub open spec fn with_entries(view: Map<Seq<char>, EntryView>, all: Seq<BinaryPackage>, resolved: Seq<usize>, arch: Seq<char>, n: int) -> Map<Seq<char>, EntryView>
    decreases n,
{
    if n <= 0 {
        view
    } else {
        with_entries(view, all, resolved, arch, n - 1).insert(key_at(all, resolved, arch, n - 1), entry_result(all, resolved, arch, n - 1).unwrap())
    }
}

fn hits_exec(all: &Vec<BinaryPackage>, resolved: &Vec<usize>, dep: &SingleDependency, t: usize) -> (r: bool)
    requires
        resolved_ok(all@, resolved@),
        t < resolved@.len(),
        dep.wf(),
    ensures
        r == hits(all@, resolved@, *dep, t as int),
{
    let c = &all[resolved[t]].control_file;
    proof {
        assert(all@[resolved@[t as int] as int].control_file.wf());
    }
    if c.package != dep.package {
        return false;
    }
    match &dep.version_constraint {
        Some(k) => k.admits(&c.version),
        None => true,
    }
}

fn best_hit_exec(all: &Vec<BinaryPackage>, resolved: &Vec<usize>, dep: &SingleDependency) -> (r: Option<usize>)
    requires
        resolved_ok(all@, resolved@),
        dep.wf(),
    ensures
        match r {
            Some(t) => best_hit(all@, resolved@, *dep, resolved@.len() as int) == Some(t as int) && t < resolved@.len(),
            None => best_hit(all@, resolved@, *dep, resolved@.len() as int) is None,
        },
{
    let mut best: Option<usize> = None;
    let mut t: usize = 0;
    while t < resolved.len()
        invariant
            resolved_ok(all@, resolved@),
            dep.wf(),
            t <= resolved@.len(),
            match best {
                Some(b) => best_hit(all@, resolved@, *dep, t as int) == Some(b as int) && b < t,
                None => best_hit(all@, resolved@, *dep, t as int) is None,
            },
        decreases resolved.len() - t,
    {
        if hits_exec(all, resolved, dep, t) {
            proof {
                assert(all@[resolved@[t as int] as int].control_file.wf());
            }
            match best {
                None => {
                    best = Some(t);
                },
                Some(b) => {
                    proof {
                        assert(all@[resolved@[b as int] as int].control_file.wf());
                    }
                    if matches!(compare_versions(&all[resolved[t]].control_file.version, &all[resolved[b]].control_file.version), Ordering::Greater) {
                        best = Some(t);
                    }
                },
            }
        }
        t = t + 1;
    }
    best
}

fn clause_edge_exec(all: &Vec<BinaryPackage>, resolved: &Vec<usize>, arch: &str, clause: &Vec<SingleDependency>) -> (r: Option<usize>)
    requires
        resolved_ok(all@, resolved@),
        forall|i: int| 0 <= i < clause@.len() ==> (#[trigger] clause@[i]).wf(),
    ensures
        match r {
            Some(t) => clause_edge(all@, resolved@, arch@, clause@, clause@.len() as int) == Some(t as int) && t < resolved@.len(),
            None => clause_edge(all@, resolved@, arch@, clause@, clause@.len() as int) is None,
        },
{
    let mut a: usize = 0;
    while a < clause.len()
        invariant
            resolved_ok(all@, resolved@),
            forall|i: int| 0 <= i < clause@.len() ==> (#[trigger] clause@[i]).wf(),
            a <= clause@.len(),
            clause_edge(all@, resolved@, arch@, clause@, a as int) is None,
        decreases clause.len() - a,
    {
        if arch_matches(&clause[a], arch) {
            let b = best_hit_exec(all, resolved, &clause[a]);
            if b.is_some() {
                proof {
                    lemma_clause_edge_stays(all@, resolved@, arch@, clause@, a as int + 1, clause@.len() as int);
                }
                return b;
            }
        }
        a = a + 1;
    }
    None
}

proof fn lemma_clause_edge_stays(all: Seq<BinaryPackage>, resolved: Seq<usize>, arch: Seq<char>, clause: Seq<SingleDependency>, m: int, n: int)
    requires
        m <= n,
        clause_edge(all, resolved, arch, clause, m) is Some,
    ensures
        clause_edge(all, resolved, arch, clause, n) == clause_edge(all, resolved, arch, clause, m),
    decreases n - m,
{
    if m < n {
        lemma_clause_edge_stays(all, resolved, arch, clause, m, n - 1);
    }
}

/// Whether the list holds the text.
fn contains_text(v: &Vec<String>, x: &String) -> (r: bool)
    ensures
        r == texts(v@).contains(x@),
{
    let mut i: usize = 0;
    while i < v.len()
        invariant
            i <= v@.len(),
            forall|k: int| 0 <= k < i ==> (#[trigger] v@[k])@ != x@,
        decreases v.len() - i,
    {
        if v[i] == *x {
            assert(texts(v@)[i as int] == x@);
            return true;
        }
        i = i + 1;
    }
    assert forall|k: int| 0 <= k < texts(v@).len() implies texts(v@)[k] != x@ by {
        assert(texts(v@)[k] == v@[k]@);
    }
    false
}

/// The dependency keys of a record: for each `Depends` clause, the key of the best resolved
/// package for its first applicable alternative that has one; without repeats.
pub fn parse_dependencies(all: &Vec<BinaryPackage>, resolved: &Vec<usize>, keys: &Vec<String>, arch: &str, control: &PackageControl) -> (r: Vec<String>)
    requires
        resolved_ok(all@, resolved@),
        control.wf(),
        keys@.len() == resolved@.len(),
        forall|t: int| 0 <= t < keys@.len() ==> (#[trigger] keys@[t])@ == key_at(all@, resolved@, arch@, t),
    ensures
        texts(r@) == edges_of(all@, resolved@, arch@, control.depends@, control.depends@.len() as int),
{
    let mut r: Vec<String> = Vec::new();
    let mut c: usize = 0;
    assert(texts(r@) =~= Seq::<Seq<char>>::empty());
    while c < control.depends.len()
        invariant
            resolved_ok(all@, resolved@),
            control.wf(),
            keys@.len() == resolved@.len(),
            forall|t: int| 0 <= t < keys@.len() ==> (#[trigger] keys@[t])@ == key_at(all@, resolved@, arch@, t),
            c <= control.depends@.len(),
            texts(r@) == edges_of(all@, resolved@, arch@, control.depends@, c as int),
        decreases control.depends.len() - c,
    {
        let clause = &control.depends[c];
        proof {
            assert forall|i: int| 0 <= i < clause@.len() implies (#[trigger] clause@[i]).wf() by {
                assert(control.depends@[c as int]@[i].wf());
            }
        }
        match clause_edge_exec(all, resolved, arch, clause) {
            Some(t) => {
                let k = &keys[t];
                if !contains_text(&r, k) {
                    let ghost before = r@;
                    r.push(k.clone());
                    assert(texts(r@) =~= texts(before).push(k@));
                }
            },
            None => {},
        }
        c = c + 1;
    }
    r
}


/// The keys of the entries named `name`.
pub open spec fn group_of(view: Map<Seq<char>, EntryView>, name: Seq<char>) -> Set<Seq<char>> {
    Set::new(|k: Seq<char>| view.contains_key(k) && view[k].name == name)
}

/// Adds `key` to the group of `name`, making the group if there is none.
fn add_to_group(groups: &mut Vec<(String, Vec<String>)>, name: &String, key: &String)
    requires
        forall|i: int, j: int| 0 <= i < j < old(groups)@.len() ==> (#[trigger] old(groups)@[i]).0@ != (#[trigger] old(groups)@[j]).0@,
        forall|i: int| 0 <= i < old(groups)@.len() ==> strictly_sorted((#[trigger] old(groups)@[i]).1@),
    ensures
        forall|i: int, j: int| 0 <= i < j < final(groups)@.len() ==> (#[trigger] final(groups)@[i]).0@ != (#[trigger] final(groups)@[j]).0@,
        forall|i: int| 0 <= i < final(groups)@.len() ==> strictly_sorted((#[trigger] final(groups)@[i]).1@),
        final(groups)@.len() >= old(groups)@.len(),
        forall|i: int| 0 <= i < old(groups)@.len() ==> (#[trigger] final(groups)@[i]).0@ == old(groups)@[i].0@,
        forall|i: int| 0 <= i < final(groups)@.len() ==> texts_of((#[trigger] final(groups)@[i]).1@) == if final(groups)@[i].0@ == name@ {
            (if i < old(groups)@.len() { texts_of(old(groups)@[i].1@) } else { Set::empty() }).insert(key@)
        } else {
            texts_of(old(groups)@[i].1@)
        },
        exists|i: int| 0 <= i < final(groups)@.len() && (#[trigger] final(groups)@[i]).0@ == name@,
        forall|i: int| old(groups)@.len() <= i < final(groups)@.len() ==> (#[trigger] final(groups)@[i]).0@ == name@,
{
    let mut g: usize = 0;
    while g < groups.len()
        invariant
            g <= groups@.len(),
            forall|k: int| 0 <= k < g ==> (#[trigger] groups@[k]).0@ != name@,
        ensures
            g <= groups@.len(),
            forall|k: int| 0 <= k < g ==> (#[trigger] groups@[k]).0@ != name@,
            g < groups@.len() ==> groups@[g as int].0@ == name@,
        decreases groups.len() - g,
    {
        if groups[g].0 == *name {
            break;
        }
        g = g + 1;
    }
    let ghost pre = groups@;
    if g < groups.len() {
        let (n, mut keys) = groups.remove(g);
        insert_sorted(&mut keys, key.clone());
        groups.insert(g, (n, keys));
        assert(groups@ =~= pre.update(g as int, (n, keys)));
        assert(groups@[g as int].0@ == name@);
        assert forall|i: int| 0 <= i < groups@.len() && i != g implies #[trigger] groups@[i] == pre[i] by {}
        assert forall|i: int| 0 <= i < groups@.len() implies texts_of((#[trigger] groups@[i]).1@) == if groups@[i].0@ == name@ {
            (if i < pre.len() { texts_of(pre[i].1@) } else { Set::empty() }).insert(key@)
        } else {
            texts_of(pre[i].1@)
        } by {
            if i != g && groups@[i].0@ == name@ {
                if i < g {
                    assert(pre[i].0@ != pre[g as int].0@);
                } else {
                    assert(pre[g as int].0@ != pre[i].0@);
                }
            }
        }
    } else {
        let mut keys: Vec<String> = Vec::new();
        assert(strictly_sorted(keys@));
        insert_sorted(&mut keys, key.clone());
        groups.push((name.clone(), keys));
        assert(texts_of(Seq::<String>::empty()) =~= Set::empty());
        assert(groups@[pre.len() as int].0@ == name@);
        assert forall|i: int| 0 <= i < pre.len() implies #[trigger] groups@[i] == pre[i] by {}
    }
}

/// Removes `key` from the group of `name`, if there is one.
fn remove_from_group(groups: &mut Vec<(String, Vec<String>)>, name: &String, key: &String)
    requires
        forall|i: int, j: int| 0 <= i < j < old(groups)@.len() ==> (#[trigger] old(groups)@[i]).0@ != (#[trigger] old(groups)@[j]).0@,
        forall|i: int| 0 <= i < old(groups)@.len() ==> strictly_sorted((#[trigger] old(groups)@[i]).1@),
    ensures
        final(groups)@.len() == old(groups)@.len(),
        forall|i: int| 0 <= i < final(groups)@.len() ==> (#[trigger] final(groups)@[i]).0@ == old(groups)@[i].0@,
        forall|i: int| 0 <= i < final(groups)@.len() ==> strictly_sorted((#[trigger] final(groups)@[i]).1@),
        forall|i: int| 0 <= i < final(groups)@.len() ==> texts_of((#[trigger] final(groups)@[i]).1@) == if final(groups)@[i].0@ == name@ {
            texts_of(old(groups)@[i].1@).remove(key@)
        } else {
            texts_of(old(groups)@[i].1@)
        },
{
    let mut g: usize = 0;
    while g < groups.len()
        invariant
            g <= groups@.len(),
            groups@ == old(groups)@,
            forall|k: int| 0 <= k < g ==> (#[trigger] groups@[k]).0@ != name@,
            forall|i: int, j: int| 0 <= i < j < old(groups)@.len() ==> (#[trigger] old(groups)@[i]).0@ != (#[trigger] old(groups)@[j]).0@,
            forall|i: int| 0 <= i < groups@.len() ==> strictly_sorted((#[trigger] groups@[i]).1@),
            forall|i: int| 0 <= i < groups@.len() ==> (#[trigger] groups@[i]).0@ == old(groups)@[i].0@,
            forall|i: int| 0 <= i < groups@.len() ==> texts_of((#[trigger] groups@[i]).1@) == if i < g && groups@[i].0@ == name@ {
                texts_of(old(groups)@[i].1@).remove(key@)
            } else {
                texts_of(old(groups)@[i].1@)
            },
        decreases groups.len() - g,
    {
        if groups[g].0 == *name {
            let ghost pre = groups@;
            let (n, mut keys) = groups.remove(g);
            remove_sorted(&mut keys, key);
            groups.insert(g, (n, keys));
            assert(groups@ =~= pre.update(g as int, (n, keys)));
            assert forall|i: int| 0 <= i < groups@.len() implies texts_of((#[trigger] groups@[i]).1@) == if i < g + 1 && groups@[i].0@ == name@ {
                texts_of(old(groups)@[i].1@).remove(key@)
            } else {
                texts_of(old(groups)@[i].1@)
            } by {
                if i != g {
                    assert(groups@[i] == pre[i]);
                    if i > g {
                        assert(old(groups)@[g as int].0@ != old(groups)@[i].0@);
                    }
                }
            }
            assert forall|i: int| 0 <= i < groups@.len() implies strictly_sorted((#[trigger] groups@[i]).1@) by {
                if i != g {
                    assert(groups@[i] == pre[i]);
                }
            }
            assert forall|i: int| 0 <= i < groups@.len() implies (#[trigger] groups@[i]).0@ == old(groups)@[i].0@ by {
                if i != g {
                    assert(groups@[i] == pre[i]);
                }
            }
            return;
        }
        g = g + 1;
    }
}

impl Lockfile {
    /// Puts `entry` under `key`, replacing what was there, and keeps the package groups exact.
    pub fn upsert(&mut self, key: String, entry: LockfilePackageEntry)
        requires
            old(self).wf(),
        ensures
            final(self).wf(),
            final(self).view_packages() == old(self).view_packages().insert(key@, entry.view_entry()),
            final(self).version == old(self).version,
            final(self).config_hash == old(self).config_hash,
            final(self).required_packages == old(self).required_packages,
    {
        let ghost view0 = self.view_packages();
        let ghost ev = entry.view_entry();
        let mut i: usize = 0;
        while i < self.packages.len()
            invariant
                i <= self.packages@.len(),
                forall|k: int| 0 <= k < i ==> (#[trigger] self.packages@[k]).0@ != key@,
            ensures
                i <= self.packages@.len(),
                forall|k: int| 0 <= k < i ==> (#[trigger] self.packages@[k]).0@ != key@,
                i < self.packages@.len() ==> self.packages@[i as int].0@ == key@,
            decreases self.packages.len() - i,
        {
            if self.packages[i].0 == key {
                break;
            }
            i = i + 1;
        }
        let name = entry.name.clone();
        let ghost pre = self.packages@;
        let mut previous: Option<String> = None;
        let found = i < self.packages.len();
        proof {
            lemma_packages_view_has(pre, key@);
            if found {
                lemma_view_at(pre, i as int);
            }
        }
        if found {
            if self.packages[i].1.name != name {
                previous = Some(self.packages[i].1.name.clone());
            }
            proof {
                lemma_packages_view_update(pre, i as int, (key, entry));
                lemma_packages_view_has(pre, key@);
            }
            self.packages.set(i, (key.clone(), entry));
            assert(self.packages@ == pre.update(i as int, (key, entry)));
        } else {
            proof {
                lemma_packages_view_has(pre, key@);
            }
            self.packages.push((key.clone(), entry));
            assert(self.packages@.drop_last() =~= pre);
        }
        let ghost view1 = self.view_packages();
        assert(view1 == view0.insert(key@, ev));
        assert(previous matches Some(p) ==> view0.contains_key(key@) && view0[key@].name == p@ && p@ != name@);
        assert(previous is None ==> (view0.contains_key(key@) ==> view0[key@].name == name@));
        let ghost g0 = self.package_groups@;
        match &previous {
            Some(p) => remove_from_group(&mut self.package_groups, p, &key),
            None => {},
        }
        let ghost g1 = self.package_groups@;
        add_to_group(&mut self.package_groups, &name, &key);
        let ghost g2 = self.package_groups@;
        assert forall|a: int, b: int| 0 <= a < b < g2.len() implies (#[trigger] g2[a]).0@ != (#[trigger] g2[b]).0@ by {}
        assert forall|a: int| 0 <= a < g2.len() implies texts_of((#[trigger] g2[a]).1@) == group_of(view1, g2[a].0@) by {
            if a < g0.len() {
                assert(texts_of(g0[a].1@) == group_of(view0, g0[a].0@));
                if g2[a].0@ == name@ {
                    assert(group_of(view1, name@) =~= group_of(view0, name@).insert(key@));
                } else if previous is Some && g2[a].0@ == previous.unwrap()@ {
                    assert(group_of(view1, g2[a].0@) =~= group_of(view0, g2[a].0@).remove(key@));
                } else {
                    assert(group_of(view1, g2[a].0@) =~= group_of(view0, g2[a].0@));
                }
            } else {
                assert(g2[a].0@ == name@) by {
                    assert(forall|c: int| 0 <= c < g1.len() ==> (#[trigger] g1[c]).0@ == g0[c].0@);
                }
                assert forall|k: Seq<char>| group_of(view0, name@).contains(k) implies false by {
                    let c = choose|c: int| 0 <= c < g0.len() && (#[trigger] g0[c]).0@ == view0[k].name;
                    assert(g1[c].0@ == g0[c].0@);
                    assert(g2[c].0@ == g1[c].0@);
                    assert(g2[c].0@ == g2[a].0@);
                    assert(c < a);
                }
                assert forall|k: Seq<char>| #[trigger] group_of(view1, name@).contains(k) <==> k == key@ by {
                    if k != key@ && group_of(view1, name@).contains(k) {
                        assert(view0.contains_key(k) && view0[k].name == name@);
                        assert(group_of(view0, name@).contains(k));
                    }
                }
                assert(group_of(view1, name@) =~= Set::<Seq<char>>::empty().insert(key@));
            }
        }
        assert forall|k: Seq<char>| #[trigger] view1.contains_key(k) implies exists|c: int| 0 <= c < g2.len() && (#[trigger] g2[c]).0@ == view1[k].name by {
            if k != key@ {
                let c = choose|c: int| 0 <= c < g0.len() && (#[trigger] g0[c]).0@ == view0[k].name;
                assert(g2[c].0@ == view1[k].name);
            }
        }
        proof {
            assert forall|a: int, b: int| 0 <= a < b < self.packages@.len() implies (#[trigger] self.packages@[a]).0@ != (#[trigger] self.packages@[b]).0@ by {
                if b == pre.len() {
                    assert(self.packages@[a] == pre[a]);
                }
            }
        }
    }
}

proof fn lemma_view_at(p: Seq<(String, LockfilePackageEntry)>, i: int)
    requires
        keys_unique(p),
        0 <= i < p.len(),
    ensures
        packages_view(p).contains_key(p[i].0@),
        packages_view(p)[p[i].0@] == p[i].1.view_entry(),
    decreases p.len(),
{
    if i < p.len() - 1 {
        assert forall|a: int, b: int| 0 <= a < b < p.drop_last().len() implies (#[trigger] p.drop_last()[a]).0@ != (#[trigger] p.drop_last()[b]).0@ by {
            assert(p[a].0@ != p[b].0@);
        }
        lemma_view_at(p.drop_last(), i);
        assert(p[i].0@ != p[p.len() - 1].0@);
    }
}


/// The entry of the `t`-th resolved package, or `None` where its record lacks a file name,
/// a size or a readable digest.
fn build_entry(all: &Vec<BinaryPackage>, resolved: &Vec<usize>, keys: &Vec<String>, arch: &str, t: usize) -> (r: Option<LockfilePackageEntry>)
    requires
        resolved_ok(all@, resolved@),
        t < resolved@.len(),
        keys@.len() == resolved@.len(),
        forall|i: int| 0 <= i < keys@.len() ==> (#[trigger] keys@[i])@ == key_at(all@, resolved@, arch@, i),
    ensures
        match r {
            Some(e) => entry_result(all@, resolved@, arch@, t as int) == Some(e.view_entry()),
            None => entry_result(all@, resolved@, arch@, t as int) is None,
        },
{
    let bp = &all[resolved[t]];
    let c = &bp.control_file;
    proof {
        assert(all@[resolved@[t as int] as int].control_file.wf());
    }
    let filename = match &c.filename {
        Some(f) => f,
        None => return None,
    };
    let size = match c.size {
        Some(s) => s,
        None => return None,
    };
    let (algorithm, hex_text) = match pick_digest(c) {
        Some(d) => d,
        None => return None,
    };
    let value = match normalize_hex(hex_text.as_str()) {
        Some(v) => v,
        None => return None,
    };
    let dependencies = parse_dependencies(all, resolved, keys, arch, c);
    let e = LockfilePackageEntry {
        name: c.package.clone(),
        version: c.version.text.clone(),
        architecture: arch.to_string(),
        download_url: compose_download_url(bp.source_url.as_str(), filename.as_str()),
        size,
        digest: LockfileDigest { algorithm, value },
        dependencies,
        control_file: c.text.clone(),
    };
    assert(e.view_entry() == entry_result(all@, resolved@, arch@, t as int).unwrap());
    Some(e)
}

proof fn lemma_best_hit_below(all: Seq<BinaryPackage>, resolved: Seq<usize>, dep: SingleDependency, n: int)
    ensures
        best_hit(all, resolved, dep, n) matches Some(t) ==> 0 <= t < n,
    decreases n,
{
    if n > 0 {
        lemma_best_hit_below(all, resolved, dep, n - 1);
    }
}

proof fn lemma_clause_edge_below(all: Seq<BinaryPackage>, resolved: Seq<usize>, arch: Seq<char>, clause: Seq<SingleDependency>, n: int)
    ensures
        clause_edge(all, resolved, arch, clause, n) matches Some(t) ==> 0 <= t < resolved.len(),
    decreases n,
{
    if n > 0 {
        lemma_clause_edge_below(all, resolved, arch, clause, n - 1);
        lemma_best_hit_below(all, resolved, clause[n - 1], resolved.len() as int);
    }
}

/// Every edge is the key of a resolved package.
pub proof fn lemma_edges_are_keys(all: Seq<BinaryPackage>, resolved: Seq<usize>, arch: Seq<char>, depends: Seq<Vec<SingleDependency>>, n: int)
    ensures
        forall|d: int| 0 <= d < edges_of(all, resolved, arch, depends, n).len() ==> exists|t: int| 0 <= t < resolved.len()
            && #[trigger] edges_of(all, resolved, arch, depends, n)[d] == key_at(all, resolved, arch, t),
    decreases n,
{
    if n > 0 {
        lemma_edges_are_keys(all, resolved, arch, depends, n - 1);
        lemma_clause_edge_below(all, resolved, arch, depends[n - 1]@, depends[n - 1]@.len() as int);
        let prev = edges_of(all, resolved, arch, depends, n - 1);
        let cur = edges_of(all, resolved, arch, depends, n);
        assert forall|d: int| 0 <= d < cur.len() implies exists|t: int| 0 <= t < resolved.len()
            && #[trigger] cur[d] == key_at(all, resolved, arch, t) by {
            if d < prev.len() {
                assert(cur[d] == prev[d]);
            }
        }
    }
}

/// The keys added are those of the resolved packages; every other entry is the old one.
pub proof fn lemma_with_entries(view: Map<Seq<char>, EntryView>, all: Seq<BinaryPackage>, resolved: Seq<usize>, arch: Seq<char>, n: int)
    requires
        0 <= n <= resolved.len(),
    ensures
        forall|k: Seq<char>| #[trigger] with_entries(view, all, resolved, arch, n).contains_key(k) <==> (view.contains_key(k)
            || exists|t: int| 0 <= t < n && key_at(all, resolved, arch, t) == k),
        forall|k: Seq<char>| #[trigger] with_entries(view, all, resolved, arch, n).contains_key(k) ==> ((view.contains_key(k) && with_entries(view, all, resolved, arch, n)[k] == view[k])
            || exists|t: int| 0 <= t < n && with_entries(view, all, resolved, arch, n)[k] == entry_result(all, resolved, arch, t).unwrap()),
    decreases n,
{
    if n > 0 {
        lemma_with_entries(view, all, resolved, arch, n - 1);
        let w = with_entries(view, all, resolved, arch, n);
        let w0 = with_entries(view, all, resolved, arch, n - 1);
        assert forall|k: Seq<char>| #[trigger] w.contains_key(k) <==> (view.contains_key(k)
            || exists|t: int| 0 <= t < n && key_at(all, resolved, arch, t) == k) by {
            if k != key_at(all, resolved, arch, n - 1) && !w0.contains_key(k) {
                assert(!exists|t: int| 0 <= t < n - 1 && key_at(all, resolved, arch, t) == k);
            }
        }
        assert forall|k: Seq<char>| #[trigger] w.contains_key(k) implies ((view.contains_key(k) && w[k] == view[k])
            || exists|t: int| 0 <= t < n && w[k] == entry_result(all, resolved, arch, t).unwrap()) by {
            if k == key_at(all, resolved, arch, n - 1) {
                assert(w[k] == entry_result(all, resolved, arch, n - 1).unwrap());
            } else {
                assert(w0.contains_key(k));
            }
        }
    }
}

impl Lockfile {
    /// Adds the resolved packages of one target architecture (`resolved` indexes `all`): an
    /// entry per package under its key, with its dependency edges among these packages, and
    /// the package groups. Fails, changing nothing, where an index is out of range or a record
    /// lacks a file name, a size or a readable digest.
    pub fn add_packages(&mut self, architecture: &str, resolved: &Vec<usize>, all: &Vec<BinaryPackage>) -> (r: Result<(), AptPrepError>)
        requires
            old(self).wf(),
            packages_wf(all@),
        ensures
            r is Ok <==> resolved_ok(all@, resolved@) && forall|t: int| 0 <= t < resolved@.len()
                ==> (#[trigger] entry_result(all@, resolved@, architecture@, t)) is Some,
            r matches Err(e) ==> e is LockfileValidation && final(self).view_packages() == old(self).view_packages(),
            r is Ok ==> final(self).view_packages() == with_entries(old(self).view_packages(), all@, resolved@, architecture@, resolved@.len() as int),
            r is Ok && edges_closed(old(self).view_packages()) ==> edges_closed(final(self).view_packages()),
            final(self).wf(),
            final(self).version == old(self).version,
            final(self).config_hash == old(self).config_hash,
            final(self).required_packages == old(self).required_packages,
    {
        let mut t: usize = 0;
        while t < resolved.len()
            invariant
                self.wf(),
                self.view_packages() == old(self).view_packages(),
                self.version == old(self).version,
                self.config_hash == old(self).config_hash,
                self.required_packages == old(self).required_packages,
                t <= resolved@.len(),
                forall|i: int| 0 <= i < t ==> #[trigger] resolved@[i] < all@.len(),
            decreases resolved.len() - t,
        {
            if resolved[t] >= all.len() {
                assert(!resolved_ok(all@, resolved@));
                return Err(AptPrepError::LockfileValidation { details: "Binary package not found".to_string() });
            }
            t = t + 1;
        }
        let mut keys: Vec<String> = Vec::new();
        let mut t: usize = 0;
        while t < resolved.len()
            invariant
                self.wf(),
                self.view_packages() == old(self).view_packages(),
                self.version == old(self).version,
                self.config_hash == old(self).config_hash,
                self.required_packages == old(self).required_packages,
                resolved_ok(all@, resolved@),
                t <= resolved@.len(),
                keys@.len() == t,
                forall|i: int| 0 <= i < t ==> (#[trigger] keys@[i])@ == key_at(all@, resolved@, architecture@, i),
            decreases resolved.len() - t,
        {
            let c = &all[resolved[t]].control_file;
            keys.push(generate_package_key(architecture, c.package.as_str(), c.version.text.as_str()));
            t = t + 1;
        }
        let mut entries: Vec<LockfilePackageEntry> = Vec::new();
        let mut t: usize = 0;
        while t < resolved.len()
            invariant
                resolved_ok(all@, resolved@),
                keys@.len() == resolved@.len(),
                forall|i: int| 0 <= i < keys@.len() ==> (#[trigger] keys@[i])@ == key_at(all@, resolved@, architecture@, i),
                t <= resolved@.len(),
                entries@.len() == t,
                forall|i: int| 0 <= i < t ==> entry_result(all@, resolved@, architecture@, i) == Some((#[trigger] entries@[i]).view_entry()),
                forall|i: int| 0 <= i < t ==> (#[trigger] entry_result(all@, resolved@, architecture@, i)) is Some,
                self.wf(),
                self.view_packages() == old(self).view_packages(),
                self.version == old(self).version,
                self.config_hash == old(self).config_hash,
                self.required_packages == old(self).required_packages,
            decreases resolved.len() - t,
        {
            match build_entry(all, resolved, &keys, architecture, t) {
                Some(e) => entries.push(e),
                None => {
                    assert(entry_result(all@, resolved@, architecture@, t as int) is None);
                    return Err(AptPrepError::LockfileValidation { details: "Package record lacks a file name, a size or a digest".to_string() });
                },
            }
            t = t + 1;
        }
        let ghost view0 = self.view_packages();
        let mut entries = entries;
        let mut t: usize = 0;
        while t < resolved.len()
            invariant
                resolved_ok(all@, resolved@),
                keys@.len() == resolved@.len(),
                forall|i: int| 0 <= i < keys@.len() ==> (#[trigger] keys@[i])@ == key_at(all@, resolved@, architecture@, i),
                t <= resolved@.len(),
                entries@.len() == resolved@.len() - t,
                forall|i: int| 0 <= i < entries@.len() ==> entry_result(all@, resolved@, architecture@, i + t) == Some((#[trigger] entries@[i]).view_entry()),
                self.wf(),
                forall|i: int| 0 <= i < resolved@.len() ==> (#[trigger] entry_result(all@, resolved@, architecture@, i)) is Some,
                self.view_packages() == with_entries(view0, all@, resolved@, architecture@, t as int),
                self.version == old(self).version,
                self.config_hash == old(self).config_hash,
                self.required_packages == old(self).required_packages,
            decreases resolved.len() - t,
        {
            let ghost pre_e = entries@;
            let e = entries.remove(0);
            assert(entries@ =~= pre_e.subrange(1, pre_e.len() as int));
            assert(entry_result(all@, resolved@, architecture@, t as int) == Some(e.view_entry()));
            self.upsert(keys[t].clone(), e);
            assert forall|i: int| 0 <= i < entries@.len() implies entry_result(all@, resolved@, architecture@, i + t + 1) == Some((#[trigger] entries@[i]).view_entry()) by {
                assert(entries@[i] == pre_e[i + 1]);
            }
            t = t + 1;
        }
        proof {
            let n = resolved@.len() as int;
            let w = self.view_packages();
            lemma_with_entries(view0, all@, resolved@, architecture@, n);
            if edges_closed(view0) {
                assert forall|k: Seq<char>, d: int| #[trigger] w.contains_key(k) && 0 <= d < w[k].dependencies.len()
                    implies w.contains_key(#[trigger] w[k].dependencies[d]) by {
                    if !exists|t: int| 0 <= t < n && w[k] == entry_result(all@, resolved@, architecture@, t).unwrap() {
                        assert(view0.contains_key(k) && w[k] == view0[k]);
                        assert(view0.contains_key(view0[k].dependencies[d]));
                    } else {
                        let t = choose|t: int| 0 <= t < n && w[k] == entry_result(all@, resolved@, architecture@, t).unwrap();
                        assert(entry_result(all@, resolved@, architecture@, t) is Some);
                        let c = rec(all@, resolved@, t);
                        lemma_edges_are_keys(all@, resolved@, architecture@, c.depends@, c.depends@.len() as int);
                        assert(w[k].dependencies == edges_of(all@, resolved@, architecture@, c.depends@, c.depends@.len() as int));
                        let u = choose|u: int| 0 <= u < n && #[trigger] edges_of(all@, resolved@, architecture@, c.depends@, c.depends@.len() as int)[d] == key_at(all@, resolved@, architecture@, u);
                        assert(w.contains_key(key_at(all@, resolved@, architecture@, u)));
                    }
                }
            }
        }
        Ok(())
    }

    /// Accepts a loaded lockfile only in the current format; the error names the version
    /// found and the one supported.
    pub fn check_version(self) -> (r: Result<Lockfile, AptPrepError>)
        ensures
            r matches Ok(l) ==> l == self && self.version == LOCKFILE_VERSION,
            r is Err ==> self.version != LOCKFILE_VERSION,
            r matches Err(e) ==> e matches AptPrepError::LockfileValidation { details } && details@ == "Lockfile version "@
                + decimal(self.version as nat) + " is not supported. Expected version 1"@,
    {
        if self.version != LOCKFILE_VERSION {
            let mut details = "Lockfile version ".to_string();
            let v = decimal_text(self.version as u64);
            details.append(v.as_str());
            details.append(" is not supported. Expected version 1");
            Err(AptPrepError::LockfileValidation { details })
        } else {
            Ok(self)
        }
    }
}


/// Locking is reproducible: adding the same resolved packages to lockfiles with the same
/// packages gives the same packages again.
pub proof fn lemma_lock_reproducible(
    a0: Lockfile,
    b0: Lockfile,
    a1: Lockfile,
    b1: Lockfile,
    all: Seq<BinaryPackage>,
    resolved: Seq<usize>,
    arch: Seq<char>,
)
    requires
        a0.view_packages() == b0.view_packages(),
        a1.view_packages() == with_entries(a0.view_packages(), all, resolved, arch, resolved.len() as int),
        b1.view_packages() == with_entries(b0.view_packages(), all, resolved, arch, resolved.len() as int),
    ensures
        a1.view_packages() == b1.view_packages(),
{
}

/// Every key of the lockfile is made of ASCII letters, digits and `_`, and is
/// `sanitize(arch)_sanitize(name)_sanitize(version)` of its entry.
pub open spec fn keys_match_entries(view: Map<Seq<char>, EntryView>) -> bool {
    forall|k: Seq<char>| #[trigger] view.contains_key(k) ==> key_well_formed(k) && k == package_key(
        view[k].architecture,
        view[k].name,
        view[k].version,
    )
}

/// Adding resolved packages keeps every key well formed and equal to its entry's key.
pub proof fn lemma_keys_well_formed(view: Map<Seq<char>, EntryView>, all: Seq<BinaryPackage>, resolved: Seq<usize>, arch: Seq<char>, n: int)
    requires
        0 <= n <= resolved.len(),
        keys_match_entries(view),
        forall|t: int| 0 <= t < resolved.len() ==> (#[trigger] entry_result(all, resolved, arch, t)) is Some,
    ensures
        keys_match_entries(with_entries(view, all, resolved, arch, n)),
    decreases n,
{
    if n > 0 {
        lemma_keys_well_formed(view, all, resolved, arch, n - 1);
        let c = rec(all, resolved, n - 1);
        assert(entry_result(all, resolved, arch, n - 1) is Some);
        lemma_package_key_well_formed(arch, c.package@, c.version.text@);
    }
}

/// The package groups are exact: each lists, sorted and without repeats, the keys of the
/// entries of its name, and every entry's name has a group.
pub proof fn lemma_groups_exact(l: Lockfile)
    requires
        l.wf(),
    ensures
        forall|i: int| 0 <= i < l.package_groups@.len() ==> strictly_sorted((#[trigger] l.package_groups@[i]).1@)
            && texts_of(l.package_groups@[i].1@) == group_of(l.view_packages(), l.package_groups@[i].0@),
        forall|k: Seq<char>| #[trigger] l.view_packages().contains_key(k) ==> exists|i: int|
            0 <= i < l.package_groups@.len() && (#[trigger] l.package_groups@[i]).0@ == l.view_packages()[k].name,
{
    assert forall|i: int| 0 <= i < l.package_groups@.len() implies texts_of((#[trigger] l.package_groups@[i]).1@) == group_of(l.view_packages(), l.package_groups@[i].0@) by {
        assert(texts_of(l.package_groups@[i].1@) =~= group_of(l.view_packages(), l.package_groups@[i].0@));
    }
}


proof fn lemma_best_hit_none(all: Seq<BinaryPackage>, resolved: Seq<usize>, dep: SingleDependency, n: int)
    requires
        forall|t: int| 0 <= t < n ==> !#[trigger] hits(all, resolved, dep, t),
    ensures
        best_hit(all, resolved, dep, n) is None,
    decreases n,
{
    if n > 0 {
        lemma_best_hit_none(all, resolved, dep, n - 1);
    }
}

proof fn lemma_best_hit_single(all: Seq<BinaryPackage>, resolved: Seq<usize>, dep: SingleDependency, n: int, tb: int)
    requires
        0 <= tb < n,
        hits(all, resolved, dep, tb),
        forall|t: int| 0 <= t < n && t != tb ==> !#[trigger] hits(all, resolved, dep, t),
    ensures
        best_hit(all, resolved, dep, n) == Some(tb),
    decreases n,
{
    if n - 1 == tb {
        lemma_best_hit_none(all, resolved, dep, n - 1);
    } else {
        lemma_best_hit_single(all, resolved, dep, n - 1, tb);
    }
}

/// A record whose `Depends` is the single clause `a | b`, where no resolved package is
/// named `a` and exactly one resolved package meets `b`, gets exactly one dependency edge:
/// the key of that package.
pub proof fn lemma_single_present_alternative(
    all: Seq<BinaryPackage>,
    resolved: Seq<usize>,
    arch: Seq<char>,
    depends: Seq<Vec<SingleDependency>>,
    tb: int,
)
    requires
        depends.len() == 1,
        depends[0]@.len() == 2,
        arch_applies(depends[0]@[0], arch),
        arch_applies(depends[0]@[1], arch),
        forall|t: int| 0 <= t < resolved.len() ==> rec(all, resolved, t).package@ != depends[0]@[0].package@,
        0 <= tb < resolved.len(),
        hits(all, resolved, depends[0]@[1], tb),
        forall|t: int| 0 <= t < resolved.len() && t != tb ==> !#[trigger] hits(all, resolved, depends[0]@[1], t),
    ensures
        edges_of(all, resolved, arch, depends, 1) == seq![key_at(all, resolved, arch, tb)],
{
    let clause = depends[0]@;
    let n = resolved.len() as int;
    assert forall|t: int| 0 <= t < n implies !#[trigger] hits(all, resolved, clause[0], t) by {}
    lemma_best_hit_none(all, resolved, clause[0], n);
    lemma_best_hit_single(all, resolved, clause[1], n, tb);
    assert(clause_edge(all, resolved, arch, clause, 0) is None);
    assert(clause_edge(all, resolved, arch, clause, 1) is None);
    assert(clause_edge(all, resolved, arch, clause, 2) == Some(tb));
    assert(edges_of(all, resolved, arch, depends, 0) =~= Seq::<Seq<char>>::empty());
    assert(edges_of(all, resolved, arch, depends, 1) =~= seq![key_at(all, resolved, arch, tb)]);
}

} // verus!
