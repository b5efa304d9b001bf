//! The solver adapter: Debian dependency clauses as `(package, version range)` requirements.
use crate::dependency::{
    arch_applies, arch_matches, copy_version, parse_single_dependency, parsed_dependency, SingleDependency, VersionRange,
};
use crate::error::DependencyResolutionError;
use crate::repository::{iterate_all_relevant_packages, packages_wf, relevant_indices, BinaryPackage, PackageControl};
use crate::version::{
    compare_versions, version_order, DebVersion, DependencyVersionConstraint, VersionRelationship,
};
use core::cmp::Ordering;
use itertools::Itertools;
use vstd::prelude::*;

verus! {

/// A virtual package offered through `Provides`: alternative `alt` of clause `clause` of the
/// `Provides` field of the candidate at position `pos`.
#[derive(Clone, Copy, Debug, PartialEq, Eq)]
pub struct ProvidedBy {
    pub pos: usize,
    pub clause: usize,
    pub alt: usize,
}

pub open spec fn cand(all: Seq<BinaryPackage>, cands: Seq<usize>, p: int) -> PackageControl {
    all[cands[p] as int].control_file
}

pub open spec fn cands_ok(all: Seq<BinaryPackage>, cands: Seq<usize>) -> bool {
    &&& packages_wf(all)
    &&& forall|p: int| 0 <= p < cands.len() ==> #[trigger] cands[p] < all.len()
}

/// The `Provides` alternative that an entry names.
pub open spec fn provided_dep(all: Seq<BinaryPackage>, cands: Seq<usize>, e: ProvidedBy) -> SingleDependency {
    cand(all, cands, e.pos as int).provides@[e.clause as int]@[e.alt as int]
}

/// Entries for the first `n` alternatives of clause `c` of candidate `p`.
pub open spec fn alt_entries(all: Seq<BinaryPackage>, cands: Seq<usize>, arch: Seq<char>, p: int, c: int, n: int) -> Seq<ProvidedBy>
    decreases n,
{
    if n <= 0 {
        Seq::empty()
    } else {
        let rest = alt_entries(all, cands, arch, p, c, n - 1);
        if arch_applies(cand(all, cands, p).provides@[c]@[n - 1], arch) {
            rest.push(ProvidedBy { pos: p as usize, clause: c as usize, alt: (n - 1) as usize })
        } else {
            rest
        }
    }
}

/// Entries for the first `n` `Provides` clauses of candidate `p`.
pub open spec fn clause_entries(all: Seq<BinaryPackage>, cands: Seq<usize>, arch: Seq<char>, p: int, n: int) -> Seq<ProvidedBy>
    decreases n,
{
    if n <= 0 {
        Seq::empty()
    } else {
        clause_entries(all, cands, arch, p, n - 1) + alt_entries(
            all,
            cands,
            arch,
            p,
            n - 1,
            cand(all, cands, p).provides@[n - 1]@.len() as int,
        )
    }
}

/// Entries for the candidates at positions below `n`: every `Provides` alternative that
/// applies on `arch`, in the order of candidates, clauses and alternatives.
pub open spec fn virtual_entries(all: Seq<BinaryPackage>, cands: Seq<usize>, arch: Seq<char>, n: int) -> Seq<ProvidedBy>
    decreases n,
{
    if n <= 0 {
        Seq::empty()
    } else {
        virtual_entries(all, cands, arch, n - 1) + clause_entries(
            all,
            cands,
            arch,
            n - 1,
            cand(all, cands, n - 1).provides@.len() as int,
        )
    }
}

pub open spec fn entry_ok(all: Seq<BinaryPackage>, cands: Seq<usize>, e: ProvidedBy) -> bool {
    &&& e.pos < cands.len()
    &&& e.clause < cand(all, cands, e.pos as int).provides@.len()
    &&& e.alt < cand(all, cands, e.pos as int).provides@[e.clause as int]@.len()
}

/// The virtual-provider table: every `Provides` alternative of the candidates that applies
/// on `arch`.
pub fn collect_virtual_packages(all: &Vec<BinaryPackage>, cands: &Vec<usize>, arch: &str) -> (r: Vec<ProvidedBy>)
    requires
        cands_ok(all@, cands@),
    ensures
        r@ == virtual_entries(all@, cands@, arch@, cands@.len() as int),
        forall|i: int| 0 <= i < r@.len() ==> entry_ok(all@, cands@, #[trigger] r@[i]),
{
    let mut r: Vec<ProvidedBy> = Vec::new();
    let mut p: usize = 0;
    while p < cands.len()
        invariant
            cands_ok(all@, cands@),
            p <= cands@.len(),
            r@ == virtual_entries(all@, cands@, arch@, p as int),
            forall|i: int| 0 <= i < r@.len() ==> entry_ok(all@, cands@, #[trigger] r@[i]),
        decreases cands.len() - p,
    {
        let control = &all[cands[p]].control_file;
        let mut c: usize = 0;
        while c < control.provides.len()
            invariant
                cands_ok(all@, cands@),
                p < cands@.len(),
                *control == cand(all@, cands@, p as int),
                c <= control.provides@.len(),
                r@ == virtual_entries(all@, cands@, arch@, p as int) + clause_entries(all@, cands@, arch@, p as int, c as int),
                forall|i: int| 0 <= i < r@.len() ==> entry_ok(all@, cands@, #[trigger] r@[i]),
            decreases control.provides.len() - c,
        {
            let clause = &control.provides[c];
            let mut a: usize = 0;
            while a < clause.len()
                invariant
                    cands_ok(all@, cands@),
                    p < cands@.len(),
                    *control == cand(all@, cands@, p as int),
                    c < control.provides@.len(),
                    *clause == control.provides@[c as int],
                    a <= clause@.len(),
                    r@ == virtual_entries(all@, cands@, arch@, p as int) + clause_entries(all@, cands@, arch@, p as int, c as int)
                        + alt_entries(all@, cands@, arch@, p as int, c as int, a as int),
                    forall|i: int| 0 <= i < r@.len() ==> entry_ok(all@, cands@, #[trigger] r@[i]),
                decreases clause.len() - a,
            {
                if arch_matches(&clause[a], arch) {
                    r.push(ProvidedBy { pos: p, clause: c, alt: a });
                }
                a = a + 1;
            }
            c = c + 1;
        }
        p = p + 1;
    }
    r
}

/// The bound below a constraint: `(version, inclusive)`, or none.
pub open spec fn lower_bound(c: DependencyVersionConstraint) -> Option<(Seq<char>, bool)> {
    match c.relationship {
        VersionRelationship::StrictlyEarlier | VersionRelationship::EarlierOrEqual => None,
        VersionRelationship::ExactlyEqual | VersionRelationship::LaterOrEqual => Some((c.version.text@, true)),
        VersionRelationship::StrictlyLater => Some((c.version.text@, false)),
    }
}

/// The bound above a constraint: `(version, inclusive)`, or none.
pub open spec fn upper_bound(c: DependencyVersionConstraint) -> Option<(Seq<char>, bool)> {
    match c.relationship {
        VersionRelationship::StrictlyEarlier => Some((c.version.text@, false)),
        VersionRelationship::EarlierOrEqual | VersionRelationship::ExactlyEqual => Some((c.version.text@, true)),
        VersionRelationship::LaterOrEqual | VersionRelationship::StrictlyLater => None,
    }
}

/// A lower bound does not lie above an upper bound.
pub open spec fn bounds_meet(lo: Option<(Seq<char>, bool)>, hi: Option<(Seq<char>, bool)>) -> bool {
    match (lo, hi) {
        (Some((l, li)), Some((h, hi_incl))) => version_order(l, h) == Ordering::Less || (version_order(l, h)
            == Ordering::Equal && li && hi_incl),
        _ => true,
    }
}

/// The two optional constraints, read as intervals of versions, overlap; an absent constraint
/// is the whole line.
pub open spec fn constraints_overlap(a: Option<DependencyVersionConstraint>, b: Option<DependencyVersionConstraint>) -> bool {
    match (a, b) {
        (Some(x), Some(y)) => bounds_meet(lower_bound(x), upper_bound(y)) && bounds_meet(lower_bound(y), upper_bound(x)),
        _ => true,
    }
}

fn lower_of(c: &DependencyVersionConstraint) -> (r: Option<(&DebVersion, bool)>)
    ensures
        match r {
            Some((v, incl)) => lower_bound(*c) == Some((v.text@, incl)) && *v == c.version,
            None => lower_bound(*c) is None,
        },
{
    match c.relationship {
        VersionRelationship::StrictlyEarlier | VersionRelationship::EarlierOrEqual => None,
        VersionRelationship::ExactlyEqual | VersionRelationship::LaterOrEqual => Some((&c.version, true)),
        VersionRelationship::StrictlyLater => Some((&c.version, false)),
    }
}

fn upper_of(c: &DependencyVersionConstraint) -> (r: Option<(&DebVersion, bool)>)
    ensures
        match r {
            Some((v, incl)) => upper_bound(*c) == Some((v.text@, incl)) && *v == c.version,
            None => upper_bound(*c) is None,
        },
{
    match c.relationship {
        VersionRelationship::StrictlyEarlier => Some((&c.version, false)),
        VersionRelationship::EarlierOrEqual | VersionRelationship::ExactlyEqual => Some((&c.version, true)),
        VersionRelationship::LaterOrEqual | VersionRelationship::StrictlyLater => None,
    }
}

fn meet(lo: Option<(&DebVersion, bool)>, hi: Option<(&DebVersion, bool)>) -> (r: bool)
    requires
        lo matches Some((v, _)) ==> v.wf(),
        hi matches Some((v, _)) ==> v.wf(),
    ensures
        r == bounds_meet(
            match lo { Some((v, i)) => Some((v.text@, i)), None => None },
            match hi { Some((v, i)) => Some((v.text@, i)), None => None },
        ),
{
    match (lo, hi) {
        (Some((l, li)), Some((h, hi_incl))) => {
            let o = compare_versions(l, h);
            matches!(o, Ordering::Less) || (matches!(o, Ordering::Equal) && li && hi_incl)
        },
        _ => true,
    }
}

/// Whether two optional constraints overlap.
pub fn overlap(a: &Option<DependencyVersionConstraint>, b: &Option<DependencyVersionConstraint>) -> (r: bool)
    requires
        a matches Some(x) ==> x.wf(),
        b matches Some(y) ==> y.wf(),
    ensures
        r == constraints_overlap(*a, *b),
{
    match (a, b) {
        (Some(x), Some(y)) => meet(lower_of(x), upper_of(y)) && meet(lower_of(y), upper_of(x)),
        _ => true,
    }
}


/// One way to satisfy an alternative: a real package within a range of versions.
#[derive(Clone, Debug)]
pub struct Solution {
    pub package: String,
    pub range: VersionRange,
}

pub open spec fn sol_view(s: Solution) -> (Seq<char>, Seq<DependencyVersionConstraint>) {
    (s.package@, s.range.constraints@)
}

pub open spec fn sols_view(s: Seq<Solution>) -> Seq<(Seq<char>, Seq<DependencyVersionConstraint>)> {
    s.map_values(|x: Solution| sol_view(x))
}

/// Some candidate carries the name.
pub open spec fn has_candidate(all: Seq<BinaryPackage>, cands: Seq<usize>, name: Seq<char>) -> bool {
    exists|p: int| 0 <= p < cands.len() && (#[trigger] cand(all, cands, p)).package@ == name
}

pub open spec fn opt_constraints(c: Option<DependencyVersionConstraint>) -> Seq<DependencyVersionConstraint> {
    match c {
        Some(k) => seq![k],
        None => Seq::empty(),
    }
}

/// The provider's own version, as a singleton range.
pub open spec fn exactly(v: DebVersion) -> Seq<DependencyVersionConstraint> {
    seq![DependencyVersionConstraint { relationship: VersionRelationship::ExactlyEqual, version: v }]
}

/// Solutions through the first `n` entries of the virtual-provider table: each provider of
/// the alternative's name whose exposed version overlaps the alternative's constraint, pinned
/// to the provider's own version.
pub open spec fn virtual_solutions(all: Seq<BinaryPackage>, cands: Seq<usize>, provided: Seq<ProvidedBy>, dep: SingleDependency, n: int) -> Seq<(Seq<char>, Seq<DependencyVersionConstraint>)>
    decreases n,
{
    if n <= 0 {
        Seq::empty()
    } else {
        let rest = virtual_solutions(all, cands, provided, dep, n - 1);
        let e = provided[n - 1];
        let vd = provided_dep(all, cands, e);
        if vd.package@ == dep.package@ && constraints_overlap(vd.version_constraint, dep.version_constraint) {
            rest.push((cand(all, cands, e.pos as int).package@, exactly(cand(all, cands, e.pos as int).version)))
        } else {
            rest
        }
    }
}

/// The solutions of one alternative on `arch`: none where its qualifier excludes `arch`;
/// otherwise the real package of that name (when a candidate has it), then the providers.
pub open spec fn alt_solutions(all: Seq<BinaryPackage>, cands: Seq<usize>, provided: Seq<ProvidedBy>, dep: SingleDependency, arch: Seq<char>) -> Seq<(Seq<char>, Seq<DependencyVersionConstraint>)> {
    if !arch_applies(dep, arch) {
        Seq::empty()
    } else {
        (if has_candidate(all, cands, dep.package@) {
            seq![(dep.package@, opt_constraints(dep.version_constraint))]
        } else {
            Seq::empty()
        }) + virtual_solutions(all, cands, provided, dep, provided.len() as int)
    }
}

/// The solutions of the first `n` alternatives of a clause, in order.
pub open spec fn clause_solutions(all: Seq<BinaryPackage>, cands: Seq<usize>, provided: Seq<ProvidedBy>, clause: Seq<SingleDependency>, arch: Seq<char>, n: int) -> Seq<(Seq<char>, Seq<DependencyVersionConstraint>)>
    decreases n,
{
    if n <= 0 {
        Seq::empty()
    } else {
        clause_solutions(all, cands, provided, clause, arch, n - 1) + alt_solutions(all, cands, provided, clause[n - 1], arch)
    }
}

pub open spec fn provided_ok(all: Seq<BinaryPackage>, cands: Seq<usize>, provided: Seq<ProvidedBy>) -> bool {
    forall|i: int| 0 <= i < provided.len() ==> entry_ok(all, cands, #[trigger] provided[i])
}

pub open spec fn sols_wf(s: Seq<Solution>) -> bool {
    forall|i: int| 0 <= i < s.len() ==> (#[trigger] s[i]).range.wf()
}

fn has_candidate_named(all: &Vec<BinaryPackage>, cands: &Vec<usize>, name: &String) -> (r: bool)
    requires
        cands_ok(all@, cands@),
    ensures
        r == has_candidate(all@, cands@, name@),
{
    let mut p: usize = 0;
    while p < cands.len()
        invariant
            cands_ok(all@, cands@),
            p <= cands@.len(),
            forall|k: int| 0 <= k < p ==> (#[trigger] cand(all@, cands@, k)).package@ != name@,
        decreases cands.len() - p,
    {
        if all[cands[p]].control_file.package == *name {
            assert(cand(all@, cands@, p as int).package@ == name@);
            return true;
        }
        p = p + 1;
    }
    false
}

proof fn lemma_provided_dep_wf(all: Seq<BinaryPackage>, cands: Seq<usize>, e: ProvidedBy)
    requires
        cands_ok(all, cands),
        entry_ok(all, cands, e),
    ensures
        provided_dep(all, cands, e).wf(),
        cand(all, cands, e.pos as int).wf(),
{
    assert(all[cands[e.pos as int] as int].control_file.wf());
    let cs = cand(all, cands, e.pos as int).provides@;
    assert(cs[e.clause as int]@[e.alt as int].wf());
}

/// The solutions of one alternative on `arch`.
pub fn alternative_solutions(
    all: &Vec<BinaryPackage>,
    cands: &Vec<usize>,
    provided: &Vec<ProvidedBy>,
    dep: &SingleDependency,
    arch: &str,
    out: &mut Vec<Solution>,
)
    requires
        cands_ok(all@, cands@),
        provided_ok(all@, cands@, provided@),
        dep.wf(),
        sols_wf(old(out)@),
    ensures
        sols_view(final(out)@) == sols_view(old(out)@) + alt_solutions(all@, cands@, provided@, *dep, arch@),
        sols_wf(final(out)@),
{
    let ghost start = sols_view(out@);
    if !arch_matches(dep, arch) {
        return;
    }
    if has_candidate_named(all, cands, &dep.package) {
        out.push(Solution { package: dep.package.clone(), range: VersionRange::of_optional(&dep.version_constraint) });
        assert(sols_view(out@) =~= start + seq![(dep.package@, opt_constraints(dep.version_constraint))]);
    } else {
        assert(sols_view(out@) =~= start + Seq::<(Seq<char>, Seq<DependencyVersionConstraint>)>::empty());
    }
    let ghost mid = sols_view(out@);
    let mut i: usize = 0;
    while i < provided.len()
        invariant
            cands_ok(all@, cands@),
            provided_ok(all@, cands@, provided@),
            dep.wf(),
            i <= provided@.len(),
            sols_wf(out@),
            sols_view(out@) == mid + virtual_solutions(all@, cands@, provided@, *dep, i as int),
        decreases provided.len() - i,
    {
        let e = provided[i];
        proof {
            lemma_provided_dep_wf(all@, cands@, e);
        }
        let control = &all[cands[e.pos]].control_file;
        let vd = &control.provides[e.clause][e.alt];
        if vd.package == dep.package && overlap(&vd.version_constraint, &dep.version_constraint) {
            let mut v = Vec::new();
            v.push(DependencyVersionConstraint { relationship: VersionRelationship::ExactlyEqual, version: copy_version(&control.version) });
            let sol = Solution { package: control.package.clone(), range: VersionRange { constraints: v } };
            assert(sol.range.constraints@ =~= exactly(cand(all@, cands@, e.pos as int).version));
            assert(sol_view(sol) == (cand(all@, cands@, e.pos as int).package@, exactly(cand(all@, cands@, e.pos as int).version)));
            let ghost before = out@;
            out.push(sol);
            assert(sols_view(out@) =~= sols_view(before).push(sol_view(sol)));
            assert(sols_view(out@) =~= mid + virtual_solutions(all@, cands@, provided@, *dep, i + 1));
        }
        i = i + 1;
    }
}

/// The solutions of a clause's alternatives, in order.
pub fn collect_solutions(
    all: &Vec<BinaryPackage>,
    cands: &Vec<usize>,
    provided: &Vec<ProvidedBy>,
    variants: &Vec<SingleDependency>,
    arch: &str,
) -> (r: Vec<Solution>)
    requires
        cands_ok(all@, cands@),
        provided_ok(all@, cands@, provided@),
        forall|i: int| 0 <= i < variants@.len() ==> (#[trigger] variants@[i]).wf(),
    ensures
        sols_view(r@) == clause_solutions(all@, cands@, provided@, variants@, arch@, variants@.len() as int),
        sols_wf(r@),
{
    let mut r: Vec<Solution> = Vec::new();
    let mut i: usize = 0;
    assert(sols_view(r@) =~= Seq::empty());
    while i < variants.len()
        invariant
            cands_ok(all@, cands@),
            provided_ok(all@, cands@, provided@),
            forall|k: int| 0 <= k < variants@.len() ==> (#[trigger] variants@[k]).wf(),
            i <= variants@.len(),
            sols_wf(r@),
            sols_view(r@) == clause_solutions(all@, cands@, provided@, variants@, arch@, i as int),
        decreases variants.len() - i,
    {
        alternative_solutions(all, cands, provided, &variants[i], arch, &mut r);
        i = i + 1;
    }
    r
}


/// A synthetic package standing for one disjunctive clause of `package_name`: clause `i`,
/// the `dummy_id`-th such package made.
#[derive(Clone, Debug, PartialEq, Eq, Hash)]
pub struct DummyPackageKey {
    pub package_name: String,
    pub i: usize,
    pub dummy_id: usize,
}

/// The synthetic root: the user's top-level requests.
#[derive(Clone, Debug, PartialEq, Eq, Hash)]
pub struct RequestedPackages {
    pub requested_packages: Vec<String>,
}

/// A node of the dependency graph handed to the solver.
#[derive(Clone, Debug, PartialEq, Eq, Hash)]
pub enum AptDependencyGraphElement {
    AptPackage(String),
    DummyPackage(DummyPackageKey),
    RequestedPackages(RequestedPackages),
}

pub enum ElementView {
    Real(Seq<char>),
    Dummy(Seq<char>, nat, nat),
    Root(Seq<String>),
}

pub open spec fn element_view(e: AptDependencyGraphElement) -> ElementView {
    match e {
        AptDependencyGraphElement::AptPackage(n) => ElementView::Real(n@),
        AptDependencyGraphElement::DummyPackage(k) => ElementView::Dummy(k.package_name@, k.i as nat, k.dummy_id as nat),
        AptDependencyGraphElement::RequestedPackages(r) => ElementView::Root(r.requested_packages@),
    }
}

/// A requirement on a graph element: its version must lie in the range.
#[derive(Clone, Debug)]
pub struct Requirement {
    pub element: AptDependencyGraphElement,
    pub range: VersionRange,
}

pub type ReqView = (ElementView, Seq<DependencyVersionConstraint>);

pub open spec fn req_view(r: Requirement) -> ReqView {
    (element_view(r.element), r.range.constraints@)
}

pub open spec fn reqs_view(r: Seq<Requirement>) -> Seq<ReqView> {
    r.map_values(|x: Requirement| req_view(x))
}

pub open spec fn reqs_wf(r: Seq<Requirement>) -> bool {
    forall|i: int| 0 <= i < r.len() ==> (#[trigger] r[i]).range.wf()
}

/// A dummy package: alternative `j` is its version `j:1.0.0`, which requires the
/// alternative's solution.
#[derive(Clone, Debug)]
pub struct DummyPackageData {
    pub key: DummyPackageKey,
    pub data_by_version: Vec<Solution>,
}

pub type DummyView = (Seq<char>, nat, nat, Seq<(Seq<char>, Seq<DependencyVersionConstraint>)>);

pub open spec fn dummy_view(d: DummyPackageData) -> DummyView {
    (d.key.package_name@, d.key.i as nat, d.key.dummy_id as nat, sols_view(d.data_by_version@))
}

pub open spec fn dummies_view(d: Seq<DummyPackageData>) -> Seq<DummyView> {
    d.map_values(|x: DummyPackageData| dummy_view(x))
}

pub open spec fn dummies_wf(d: Seq<DummyPackageData>) -> bool {
    forall|i: int| 0 <= i < d.len() ==> sols_wf((#[trigger] d[i]).data_by_version@)
}

/// The last requirement on the real package `name`, or -1.
pub open spec fn find_real(deps: Seq<ReqView>, name: Seq<char>) -> int
    decreases deps.len(),
{
    if deps.len() == 0 {
        -1
    } else if deps.last().0 == ElementView::Real(name) {
        deps.len() - 1
    } else {
        find_real(deps.drop_last(), name)
    }
}

/// Adds a single-solution requirement, intersecting it with an earlier one on the same package.
pub open spec fn fold_real(deps: Seq<ReqView>, sol: (Seq<char>, Seq<DependencyVersionConstraint>)) -> Seq<ReqView> {
    let p = find_real(deps, sol.0);
    if p >= 0 {
        deps.update(p, (ElementView::Real(sol.0), deps[p].1 + sol.1))
    } else {
        deps.push((ElementView::Real(sol.0), sol.1))
    }
}

/// The requirements and dummy packages made from the first `n` clauses in the order `o`:
/// a clause with one solution is folded into the requirement on its package; one with
/// several becomes a dummy package (ids from `base` on) required with the full range.
pub open spec fn table(sols: Seq<Seq<(Seq<char>, Seq<DependencyVersionConstraint>)>>, o: Seq<usize>, n: int, owner: Seq<char>, base: nat) -> (Seq<ReqView>, Seq<DummyView>)
    decreases n,
{
    if n <= 0 {
        (Seq::empty(), Seq::empty())
    } else {
        let prev = table(sols, o, n - 1, owner, base);
        let k = o[n - 1];
        let s = sols[k as int];
        if s.len() == 1 {
            (fold_real(prev.0, s[0]), prev.1)
        } else {
            let id = base + prev.1.len();
            (
                prev.0.push((ElementView::Dummy(owner, k as nat, id), Seq::empty())),
                prev.1.push((owner, k as nat, id, s)),
            )
        }
    }
}

/// `o` lists `0..counts.len()` by ascending count, ties in index order.
pub open spec fn ordered_by_count(counts: Seq<usize>, o: Seq<usize>) -> bool {
    &&& o.len() == counts.len()
    &&& forall|i: int| 0 <= i < o.len() ==> #[trigger] o[i] < counts.len()
    &&& forall|i: int, j: int| 0 <= i < j < o.len() ==> o[i] != o[j]
    &&& forall|i: int|
        0 <= i < o.len() - 1 ==> counts[#[trigger] o[i] as int] < counts[o[i + 1] as int] || (counts[o[i]
            as int] == counts[o[i + 1] as int] && o[i] < o[i + 1])
}

/// Relies on `Itertools::sorted_by_key`, a stable sort: the indices `0..n` ordered by their count.
#[verifier::external_body]
fn order_by_count(counts: &Vec<usize>) -> (r: Vec<usize>)
    ensures
        ordered_by_count(counts@, r@),
{
    (0..counts.len()).sorted_by_key(|i| counts[*i]).collect()
}

/// Clause `k` of a control's requirements (`Pre-Depends`, then `Depends`).
fn clause_at(c: &PackageControl, k: usize) -> (r: &Vec<SingleDependency>)
    requires
        k < c.requirements().len(),
    ensures
        *r == c.requirements()[k as int],
{
    if k < c.pre_depends.len() {
        &c.pre_depends[k]
    } else {
        &c.depends[k - c.pre_depends.len()]
    }
}

/// The solutions of every requirement clause of candidate `p`.
#[verifier::opaque]
pub open spec fn control_solutions(all: Seq<BinaryPackage>, cands: Seq<usize>, provided: Seq<ProvidedBy>, p: int, arch: Seq<char>) -> Seq<Seq<(Seq<char>, Seq<DependencyVersionConstraint>)>> {
    let reqs = cand(all, cands, p).requirements();
    Seq::new(reqs.len(), |k: int| clause_solutions(all, cands, provided, reqs[k]@, arch, reqs[k]@.len() as int))
}

/// Every clause has some solution.
pub open spec fn solvable(sols: Seq<Seq<(Seq<char>, Seq<DependencyVersionConstraint>)>>) -> bool {
    forall|k: int| 0 <= k < sols.len() ==> (#[trigger] sols[k]).len() > 0
}

pub open spec fn counts_of(sols: Seq<Seq<(Seq<char>, Seq<DependencyVersionConstraint>)>>) -> Seq<usize> {
    Seq::new(sols.len(), |k: int| sols[k].len() as usize)
}

fn find_real_exec(deps: &Vec<Requirement>, name: &String) -> (r: Option<usize>)
    ensures
        match r {
            Some(p) => find_real(reqs_view(deps@), name@) == p as int && p < deps@.len(),
            None => find_real(reqs_view(deps@), name@) == -1,
        },
{
    let mut i: usize = deps.len();
    assert(deps@.subrange(0, deps@.len() as int) =~= deps@);
    while i > 0
        invariant
            i <= deps@.len(),
            find_real(reqs_view(deps@), name@) == find_real(reqs_view(deps@.subrange(0, i as int)), name@),
        decreases i,
    {
        let ghost pre = reqs_view(deps@.subrange(0, i as int));
        assert(pre.drop_last() =~= reqs_view(deps@.subrange(0, i - 1)));
        let hit = match &deps[i - 1].element {
            AptDependencyGraphElement::AptPackage(n) => *n == *name,
            _ => false,
        };
        if hit {
            return Some(i - 1);
        }
        i = i - 1;
    }
    None
}

/// The requirements of candidate `p`, with the dummy packages its disjunctions need
/// appended to `dummies`; `None`, with `dummies` unchanged, where some clause has no solution.
#[verifier::rlimit(60)]
pub fn control_dependencies(
    all: &Vec<BinaryPackage>,
    cands: &Vec<usize>,
    provided: &Vec<ProvidedBy>,
    p: usize,
    arch: &str,
    dummies: &mut Vec<DummyPackageData>,
) -> (r: Option<Vec<Requirement>>)
    requires
        cands_ok(all@, cands@),
        provided_ok(all@, cands@, provided@),
        p < cands@.len(),
        dummies_wf(old(dummies)@),
    ensures
        dummies_wf(final(dummies)@),
        match r {
            None => !solvable(control_solutions(all@, cands@, provided@, p as int, arch@)) && final(dummies)@ == old(dummies)@,
            Some(deps) => {
                let sols = control_solutions(all@, cands@, provided@, p as int, arch@);
                &&& solvable(sols)
                &&& reqs_wf(deps@)
                &&& final(dummies)@.len() >= old(dummies)@.len()
                &&& exists|o: Seq<usize>| {
                    &&& ordered_by_count(counts_of(sols), o)
                    &&& #[trigger] table(sols, o, o.len() as int, cand(all@, cands@, p as int).package@, old(dummies)@.len() as nat)
                        == (reqs_view(deps@), dummies_view(final(dummies)@).subrange(old(dummies)@.len() as int, final(dummies)@.len() as int))
                }
                &&& dummies_view(final(dummies)@).subrange(0, old(dummies)@.len() as int) == dummies_view(old(dummies)@)
            },
        },
{
    let control = &all[cands[p]].control_file;
    proof {
        assert(all@[cands@[p as int] as int].control_file.wf());
        reveal(control_solutions);
    }
    let ghost sols_spec = control_solutions(all@, cands@, provided@, p as int, arch@);
    let mut sols: Vec<Vec<Solution>> = Vec::new();
    let mut counts: Vec<usize> = Vec::new();
    let mut k: usize = 0;
    while k < control.pre_depends.len()
        invariant
            cands_ok(all@, cands@),
            provided_ok(all@, cands@, provided@),
            p < cands@.len(),
            *control == cand(all@, cands@, p as int),
            control.wf(),
            sols_spec == control_solutions(all@, cands@, provided@, p as int, arch@),
            k <= control.pre_depends@.len(),
            sols@.len() == k,
            counts@.len() == k,
            forall|j: int| 0 <= j < k ==> sols_view(#[trigger] sols@[j]@) == sols_spec[j],
            forall|j: int| 0 <= j < k ==> sols_wf(#[trigger] sols@[j]@),
            forall|j: int| 0 <= j < k ==> #[trigger] counts@[j] == sols@[j]@.len(),
            dummies@ == old(dummies)@,
        decreases control.pre_depends.len() - k,
    {
        let clause = &control.pre_depends[k];
        proof {
            reveal(control_solutions);
            assert(control.requirements()[k as int] == *clause);
            assert forall|i: int| 0 <= i < clause@.len() implies (#[trigger] clause@[i]).wf() by {
                assert(control.pre_depends@[k as int]@[i].wf());
            }
        }
        let s = collect_solutions(all, cands, provided, clause, arch);
        counts.push(s.len());
        sols.push(s);
        k = k + 1;
    }
    let mut d: usize = 0;
    while d < control.depends.len()
        invariant
            cands_ok(all@, cands@),
            provided_ok(all@, cands@, provided@),
            p < cands@.len(),
            *control == cand(all@, cands@, p as int),
            control.wf(),
            sols_spec == control_solutions(all@, cands@, provided@, p as int, arch@),
            d <= control.depends@.len(),
            sols@.len() == control.pre_depends@.len() + d,
            counts@.len() == sols@.len(),
            forall|j: int| 0 <= j < sols@.len() ==> sols_view(#[trigger] sols@[j]@) == sols_spec[j],
            forall|j: int| 0 <= j < sols@.len() ==> sols_wf(#[trigger] sols@[j]@),
            forall|j: int| 0 <= j < sols@.len() ==> #[trigger] counts@[j] == sols@[j]@.len(),
            dummies@ == old(dummies)@,
        decreases control.depends.len() - d,
    {
        let clause = &control.depends[d];
        proof {
            reveal(control_solutions);
            assert(control.requirements()[control.pre_depends@.len() + d] == *clause);
            assert forall|i: int| 0 <= i < clause@.len() implies (#[trigger] clause@[i]).wf() by {
                assert(control.depends@[d as int]@[i].wf());
            }
        }
        let s = collect_solutions(all, cands, provided, clause, arch);
        counts.push(s.len());
        sols.push(s);
        d = d + 1;
    }
    let n = sols.len();
    assert(counts@ =~= counts_of(sols_spec));
    let mut j: usize = 0;
    while j < n
        invariant
            n == sols@.len(),
            sols_spec.len() == n,
            counts@.len() == n,
            forall|i: int| 0 <= i < n ==> #[trigger] counts@[i] == sols@[i]@.len(),
            forall|i: int| 0 <= i < n ==> sols_view(#[trigger] sols@[i]@) == sols_spec[i],
            j <= n,
            forall|i: int| 0 <= i < j ==> (#[trigger] sols_spec[i]).len() > 0,
            sols_spec == control_solutions(all@, cands@, provided@, p as int, arch@),
            dummies@ == old(dummies)@,
            dummies_wf(dummies@),
        decreases n - j,
    {
        if counts[j] == 0 {
            assert(sols_view(sols@[j as int]@).len() == 0);
            return None;
        }
        assert(sols_view(sols@[j as int]@).len() > 0);
        j = j + 1;
    }
    let order = order_by_count(&counts);
    let ghost owner = control.package@;
    let ghost base = dummies@.len() as nat;
    let ghost d0 = dummies@;
    let mut deps: Vec<Requirement> = Vec::new();
    let mut t: usize = 0;
    assert(dummies_view(dummies@).subrange(base as int, dummies@.len() as int) =~= Seq::<DummyView>::empty());
    assert(reqs_view(deps@) =~= Seq::<ReqView>::empty());
    while t < n
        invariant
            n == sols@.len(),
            sols_spec.len() == n,
            counts@ == counts_of(sols_spec),
            forall|i: int| 0 <= i < n ==> sols_view(#[trigger] sols@[i]@) == sols_spec[i],
            forall|i: int| 0 <= i < n ==> sols_wf(#[trigger] sols@[i]@),
            ordered_by_count(counts@, order@),
            owner == control.package@,
            t <= n,
            base == d0.len(),
            dummies@.len() >= base,
            dummies_wf(dummies@),
            reqs_wf(deps@),
            dummies_view(dummies@).subrange(0, base as int) == dummies_view(d0),
            table(sols_spec, order@, t as int, owner, base) == (reqs_view(deps@), dummies_view(dummies@).subrange(base as int, dummies@.len() as int)),
        decreases n - t,
    {
        let k = order[t];
        let ghost prev_deps = reqs_view(deps@);
        let ghost prev_d = dummies@;
        if sols[k].len() == 1 {
            let sol = &sols[k][0];
            let found = find_real_exec(&deps, &sol.package);
            match found {
                Some(q) => {
                    let mut range = VersionRange { constraints: Vec::new() };
                    range.intersect(&deps[q].range);
                    range.intersect(&sol.range);
                    let ghost before = deps@;
                    deps.set(q, Requirement { element: AptDependencyGraphElement::AptPackage(sol.package.clone()), range });
                    assert(reqs_view(deps@) =~= reqs_view(before).update(q as int, (ElementView::Real(sol.package@), reqs_view(before)[q as int].1 + sol.range.constraints@)));
                },
                None => {
                    let mut range = VersionRange { constraints: Vec::new() };
                    range.intersect(&sol.range);
                    let ghost before = deps@;
                    deps.push(Requirement { element: AptDependencyGraphElement::AptPackage(sol.package.clone()), range });
                    assert(reqs_view(deps@) =~= reqs_view(before).push((ElementView::Real(sol.package@), sol.range.constraints@)));
                },
            }
            assert(sols_view(sols@[k as int]@)[0] == sol_view(sols@[k as int]@[0]));
            assert(dummies_view(dummies@).subrange(base as int, dummies@.len() as int) == dummies_view(prev_d).subrange(base as int, prev_d.len() as int));
        } else {
            let id = dummies.len();
            let key = DummyPackageKey { package_name: control.package.clone(), i: k, dummy_id: id };
            let mut alts: Vec<Solution> = Vec::new();
            let mut a: usize = 0;
            while a < sols[k].len()
                invariant
                    k < sols@.len(),
                    a <= sols@[k as int]@.len(),
                    sols_wf(sols@[k as int]@),
                    sols_wf(alts@),
                    alts@.len() == a,
                    sols_view(alts@) == sols_view(sols@[k as int]@).subrange(0, a as int),
                decreases sols@[k as int]@.len() - a,
            {
                let mut range = VersionRange { constraints: Vec::new() };
                range.intersect(&sols[k][a].range);
                let ghost before = alts@;
                assert(range.constraints@ =~= sols@[k as int]@[a as int].range.constraints@);
                alts.push(Solution { package: sols[k][a].package.clone(), range });
                assert(sol_view(alts@[a as int]) == sols_view(sols@[k as int]@)[a as int]);
                assert(sols_view(alts@) =~= sols_view(sols@[k as int]@).subrange(0, a + 1));
                a = a + 1;
            }
            assert(sols_view(sols@[k as int]@).subrange(0, a as int) =~= sols_view(sols@[k as int]@));
            let dkey = DummyPackageKey { package_name: control.package.clone(), i: k, dummy_id: id };
            dummies.push(DummyPackageData { key, data_by_version: alts });
            let ghost before = deps@;
            let full = VersionRange::full();
            assert(full.constraints@ =~= Seq::<DependencyVersionConstraint>::empty());
            let req = Requirement { element: AptDependencyGraphElement::DummyPackage(dkey), range: full };
            assert(req_view(req) == (ElementView::Dummy(owner, k as nat, id as nat), Seq::<DependencyVersionConstraint>::empty()));
            deps.push(req);
            assert(reqs_view(deps@) =~= reqs_view(before).push((ElementView::Dummy(owner, k as nat, id as nat), Seq::empty())));
            assert(dummies_view(dummies@) =~= dummies_view(prev_d).push((owner, k as nat, id as nat, sols_spec[k as int])));
            assert(dummies_view(dummies@).subrange(base as int, dummies@.len() as int) =~= dummies_view(prev_d).subrange(base as int, prev_d.len() as int).push((owner, k as nat, id as nat, sols_spec[k as int])));
            assert(dummies_view(dummies@).subrange(0, base as int) =~= dummies_view(prev_d).subrange(0, base as int));
        }
        t = t + 1;
    }
    assert(solvable(sols_spec));
    Some(deps)
}


/// The requirements of one version of a real package, and the candidate it came from.
#[derive(Clone, Debug)]
pub struct DependenciesByVersionEntry {
    pub version: DebVersion,
    pub dependencies: Vec<Requirement>,
    /// Position of the candidate in the provider's candidate list.
    pub control_file: Option<usize>,
}

/// A real package and its versions in ascending Debian order.
#[derive(Clone, Debug)]
pub struct AptPackage {
    pub name: String,
    pub dependencies_by_version: Vec<DependenciesByVersionEntry>,
}

/// `a` comes before `b`: comparing `a` with `b` gives `Less`, or comparing `b` with `a`
/// gives `Greater` (each fact is what one comparison in that direction returned).
pub open spec fn comes_before(a: Seq<char>, b: Seq<char>) -> bool {
    version_order(a, b) == Ordering::Less || version_order(b, a) == Ordering::Greater
}

/// Versions ascend from each entry to the next.
pub open spec fn versions_ascending(es: Seq<DependenciesByVersionEntry>) -> bool {
    &&& forall|j: int| 0 <= j < es.len() ==> (#[trigger] es[j]).version.wf()
    &&& forall|j: int, k: int|
        0 <= j && k == j + 1 && k < es.len() ==> comes_before(
            (#[trigger] es[j]).version.text@,
            (#[trigger] es[k]).version.text@,
        )
}

/// Some order `o` by solution count and some first dummy id produce `deps` and the dummy
/// packages found in `dv` from that id on.
#[verifier::opaque]
pub open spec fn table_fact(sols: Seq<Seq<(Seq<char>, Seq<DependencyVersionConstraint>)>>, owner: Seq<char>, deps: Seq<ReqView>, dv: Seq<DummyView>) -> bool {
    exists|o: Seq<usize>, base: nat| {
        let t = #[trigger] table(sols, o, o.len() as int, owner, base);
        &&& ordered_by_count(counts_of(sols), o)
        &&& base + t.1.len() <= dv.len()
        &&& t.0 == deps
        &&& t.1 == dv.subrange(base as int, (base + t.1.len()) as int)
    }
}

pub proof fn lemma_table_fact_grows(sols: Seq<Seq<(Seq<char>, Seq<DependencyVersionConstraint>)>>, owner: Seq<char>, deps: Seq<ReqView>, dv: Seq<DummyView>, dv2: Seq<DummyView>)
    requires
        table_fact(sols, owner, deps, dv),
        dv.len() <= dv2.len(),
        dv2.subrange(0, dv.len() as int) == dv,
    ensures
        table_fact(sols, owner, deps, dv2),
{
    reveal(table_fact);
    let (o, base) = choose|o: Seq<usize>, base: nat| {
        let t = #[trigger] table(sols, o, o.len() as int, owner, base);
        &&& ordered_by_count(counts_of(sols), o)
        &&& base + t.1.len() <= dv.len()
        &&& t.0 == deps
        &&& t.1 == dv.subrange(base as int, (base + t.1.len()) as int)
    };
    let t = table(sols, o, o.len() as int, owner, base);
    assert(t.1 =~= dv2.subrange(base as int, (base + t.1.len()) as int));
}

/// The entry was made from candidate `p` of the package `name`: its version is the
/// candidate's (or one equal to it in Debian order) and its requirements are the candidate's
/// dependency table.
pub open spec fn entry_sound(all: Seq<BinaryPackage>, cands: Seq<usize>, provided: Seq<ProvidedBy>, arch: Seq<char>, dv: Seq<DummyView>, name: Seq<char>, e: DependenciesByVersionEntry) -> bool {
    &&& reqs_wf(e.dependencies@)
    &&& e.control_file matches Some(p) && {
        &&& p < cands.len()
        &&& cand(all, cands, p as int).package@ == name
        &&& (e.version.text@ == cand(all, cands, p as int).version.text@ || version_order(cand(all, cands, p as int).version.text@, e.version.text@) == Ordering::Equal)
        &&& solvable(control_solutions(all, cands, provided, p as int, arch))
        &&& table_fact(control_solutions(all, cands, provided, p as int, arch), name, reqs_view(e.dependencies@), dv)
    }
}

/// Inserts an entry at its place in the ascending list; where an entry of an equal version is
/// there, its requirements and candidate are replaced and its version kept.
fn insert_version(es: &mut Vec<DependenciesByVersionEntry>, e: DependenciesByVersionEntry)
    requires
        versions_ascending(old(es)@),
        e.version.wf(),
    ensures
        versions_ascending(final(es)@),
        forall|j: int| 0 <= j < old(es)@.len() ==> exists|k: int| 0 <= k < final(es)@.len() && (#[trigger] final(es)@[k]).version == (#[trigger] old(es)@[j]).version,
        exists|k: int| 0 <= k < final(es)@.len() && (#[trigger] final(es)@[k]).dependencies == e.dependencies
            && final(es)@[k].control_file == e.control_file
            && (final(es)@[k].version == e.version || version_order(e.version.text@, final(es)@[k].version.text@) == Ordering::Equal),
        forall|k: int| 0 <= k < final(es)@.len() ==> old(es)@.contains(#[trigger] final(es)@[k]) || (
            final(es)@[k].dependencies == e.dependencies && final(es)@[k].control_file == e.control_file
            && (final(es)@[k].version == e.version || version_order(e.version.text@, final(es)@[k].version.text@) == Ordering::Equal)),
{
    let mut i: usize = 0;
    while i < es.len()
        invariant
            i <= es@.len(),
            versions_ascending(es@),
            e.version.wf(),
            es@ == old(es)@,
            forall|k: int| 0 <= k < i ==> version_order(e.version.text@, (#[trigger] es@[k]).version.text@) == Ordering::Greater,
        ensures
            i <= es@.len(),
            es@ == old(es)@,
            forall|k: int| 0 <= k < i ==> version_order(e.version.text@, (#[trigger] es@[k]).version.text@) == Ordering::Greater,
            i < es@.len() ==> version_order(e.version.text@, es@[i as int].version.text@) != Ordering::Greater,
        decreases es.len() - i,
    {
        let o = compare_versions(&e.version, &es[i].version);
        if !matches!(o, Ordering::Greater) {
            break;
        }
        i = i + 1;
    }
    let ghost pre = es@;
    if i < es.len() && matches!(compare_versions(&e.version, &es[i].version), Ordering::Equal) {
        let key = copy_version(&es[i].version);
        let ghost ev = e.version;
        let ne = DependenciesByVersionEntry { version: key, dependencies: e.dependencies, control_file: e.control_file };
        es.set(i, ne);
        assert(version_order(ev.text@, ne.version.text@) == Ordering::Equal);
        assert forall|j: int| 0 <= j < pre.len() implies exists|k: int| 0 <= k < es@.len() && (#[trigger] es@[k]).version == (#[trigger] pre[j]).version by {
            assert(es@[j].version == pre[j].version);
        }
        assert forall|k: int| 0 <= k < es@.len() implies pre.contains(#[trigger] es@[k]) || (
            es@[k].dependencies == ne.dependencies && es@[k].control_file == ne.control_file
            && (es@[k].version == ev || version_order(ev.text@, es@[k].version.text@) == Ordering::Equal)) by {
            if k != i {
                assert(pre[k] == es@[k]);
            }
        }
        assert(es@[i as int] == ne);
        return;
    }
    let ghost ev = e.version;
    let ghost ed = e.dependencies;
    let ghost ec = e.control_file;
    es.insert(i, e);
    assert forall|j: int, k: int| 0 <= j && k == j + 1 && k < es@.len() implies comes_before((#[trigger] es@[j]).version.text@, (#[trigger] es@[k]).version.text@) by {
        if j + 1 < i {
            assert(es@[j] == pre[j] && es@[j + 1] == pre[j + 1]);
        } else if j + 1 == i {
            assert(version_order(ev.text@, pre[j].version.text@) == Ordering::Greater);
        } else if j == i {
            assert(es@[j + 1] == pre[j]);
        } else {
            assert(es@[j] == pre[j - 1] && es@[j + 1] == pre[j]);
        }
    }
    assert forall|j: int| 0 <= j < pre.len() implies exists|k: int| 0 <= k < es@.len() && (#[trigger] es@[k]).version == (#[trigger] pre[j]).version by {
        if j < i {
            assert(es@[j] == pre[j]);
        } else {
            assert(es@[j + 1] == pre[j]);
        }
    }
    assert forall|k: int| 0 <= k < es@.len() implies pre.contains(#[trigger] es@[k]) || (
        es@[k].dependencies == ed && es@[k].control_file == ec
        && (es@[k].version == ev || version_order(ev.text@, es@[k].version.text@) == Ordering::Equal)) by {
        if k < i {
            assert(es@[k] == pre[k]);
        } else if k > i {
            assert(es@[k] == pre[k - 1]);
        }
    }
    assert(es@[i as int].version == ev);
}


pub open spec fn names_distinct(pkgs: Seq<AptPackage>) -> bool {
    forall|i: int, j: int| 0 <= i < j < pkgs.len() ==> (#[trigger] pkgs[i]).name@ != (#[trigger] pkgs[j]).name@
}

pub open spec fn all_ascending(pkgs: Seq<AptPackage>) -> bool {
    forall|i: int|
        0 <= i < pkgs.len() ==> versions_ascending((#[trigger] pkgs[i]).dependencies_by_version@)
            && pkgs[i].dependencies_by_version@.len() > 0
}

pub open spec fn at(pkgs: Seq<AptPackage>, a: int, b: int) -> bool {
    0 <= a < pkgs.len() && 0 <= b < pkgs[a].dependencies_by_version@.len()
}

/// `e2` carries the requirements and candidate of `e`, under `e`'s version or an equal one.
pub open spec fn carries(e2: DependenciesByVersionEntry, e: DependenciesByVersionEntry) -> bool {
    &&& e2.dependencies == e.dependencies
    &&& e2.control_file == e.control_file
    &&& (e2.version == e.version || version_order(e.version.text@, e2.version.text@) == Ordering::Equal)
}

/// Adds `entry` to the package named `name`, or appends a new package holding it.
fn add_entry(pkgs: &mut Vec<AptPackage>, name: &String, entry: DependenciesByVersionEntry)
    requires
        names_distinct(old(pkgs)@),
        all_ascending(old(pkgs)@),
        entry.version.wf(),
    ensures
        names_distinct(final(pkgs)@),
        all_ascending(final(pkgs)@),
        forall|a: int, b: int| #[trigger] at(final(pkgs)@, a, b) ==> (exists|a2: int, b2: int| #[trigger] at(old(pkgs)@, a2, b2)
            && old(pkgs)@[a2].name@ == final(pkgs)@[a].name@ && old(pkgs)@[a2].dependencies_by_version@[b2] == final(pkgs)@[a].dependencies_by_version@[b])
            || (final(pkgs)@[a].name@ == name@ && carries(final(pkgs)@[a].dependencies_by_version@[b], entry)),
        forall|a: int, b: int| #[trigger] at(old(pkgs)@, a, b) ==> exists|a2: int, b2: int| #[trigger] at(final(pkgs)@, a2, b2)
            && final(pkgs)@[a2].name@ == old(pkgs)@[a].name@ && final(pkgs)@[a2].dependencies_by_version@[b2].version == old(pkgs)@[a].dependencies_by_version@[b].version,
        exists|a: int, b: int| #[trigger] at(final(pkgs)@, a, b) && final(pkgs)@[a].name@ == name@ && carries(final(pkgs)@[a].dependencies_by_version@[b], entry),
{
    let mut i: usize = 0;
    while i < pkgs.len()
        invariant
            i <= pkgs@.len(),
            forall|k: int| 0 <= k < i ==> (#[trigger] pkgs@[k]).name@ != name@,
        ensures
            i <= pkgs@.len(),
            forall|k: int| 0 <= k < i ==> (#[trigger] pkgs@[k]).name@ != name@,
            i < pkgs@.len() ==> pkgs@[i as int].name@ == name@,
        decreases pkgs.len() - i,
    {
        if pkgs[i].name == *name {
            break;
        }
        i = i + 1;
    }
    let ghost before = pkgs@;
    let ghost ev = entry;
    if i < pkgs.len() {
        let mut pkg = pkgs.remove(i);
        let ghost old_entries = pkg.dependencies_by_version@;
        insert_version(&mut pkg.dependencies_by_version, entry);
        pkgs.insert(i, pkg);
        assert(pkgs@ =~= before.update(i as int, pkg));
        assert forall|a: int, b: int| #[trigger] at(pkgs@, a, b) implies (exists|a2: int, b2: int| #[trigger] at(before, a2, b2)
            && before[a2].name@ == pkgs@[a].name@ && before[a2].dependencies_by_version@[b2] == pkgs@[a].dependencies_by_version@[b])
            || (pkgs@[a].name@ == name@ && carries(pkgs@[a].dependencies_by_version@[b], ev)) by {
            if a == i {
                let e2 = pkgs@[a].dependencies_by_version@[b];
                if old_entries.contains(e2) {
                    let c = choose|c: int| 0 <= c < old_entries.len() && old_entries[c] == e2;
                    assert(at(before, a, c));
                }
            } else {
                assert(at(before, a, b));
            }
        }
        assert forall|a: int, b: int| #[trigger] at(before, a, b) implies exists|a2: int, b2: int| #[trigger] at(pkgs@, a2, b2)
            && pkgs@[a2].name@ == before[a].name@ && pkgs@[a2].dependencies_by_version@[b2].version == before[a].dependencies_by_version@[b].version by {
            if a == i {
                let k = choose|k: int| 0 <= k < pkg.dependencies_by_version@.len() && (#[trigger] pkg.dependencies_by_version@[k]).version == old_entries[b].version;
                assert(at(pkgs@, a, k));
            } else {
                assert(at(pkgs@, a, b));
            }
        }
        proof {
            let k = choose|k: int| 0 <= k < pkg.dependencies_by_version@.len() && (#[trigger] pkg.dependencies_by_version@[k]).dependencies == ev.dependencies
                && pkg.dependencies_by_version@[k].control_file == ev.control_file
                && (pkg.dependencies_by_version@[k].version == ev.version || version_order(ev.version.text@, pkg.dependencies_by_version@[k].version.text@) == Ordering::Equal);
            assert(at(pkgs@, i as int, k));
        }
    } else {
        let mut es: Vec<DependenciesByVersionEntry> = Vec::new();
        es.push(entry);
        let pkg = AptPackage { name: name.clone(), dependencies_by_version: es };
        pkgs.push(pkg);
        assert(pkgs@[before.len() as int].dependencies_by_version@[0] == ev);
        assert forall|a: int, b: int| #[trigger] at(pkgs@, a, b) implies (exists|a2: int, b2: int| #[trigger] at(before, a2, b2)
            && before[a2].name@ == pkgs@[a].name@ && before[a2].dependencies_by_version@[b2] == pkgs@[a].dependencies_by_version@[b])
            || (pkgs@[a].name@ == name@ && carries(pkgs@[a].dependencies_by_version@[b], ev)) by {
            if a < before.len() {
                assert(at(before, a, b));
            }
        }
        assert forall|a: int, b: int| #[trigger] at(before, a, b) implies exists|a2: int, b2: int| #[trigger] at(pkgs@, a2, b2)
            && pkgs@[a2].name@ == before[a].name@ && pkgs@[a2].dependencies_by_version@[b2].version == before[a].dependencies_by_version@[b].version by {
            assert(at(pkgs@, a, b));
        }
        assert(at(pkgs@, before.len() as int, 0));
    }
}

proof fn lemma_after_add_sound(
    all: Seq<BinaryPackage>,
    cands: Seq<usize>,
    provided: Seq<ProvidedBy>,
    arch: Seq<char>,
    dv: Seq<DummyView>,
    before: Seq<AptPackage>,
    after: Seq<AptPackage>,
    name: Seq<char>,
    entry: DependenciesByVersionEntry,
    p: usize,
)
    requires
        cands_ok(all, cands),
        0 <= p < cands.len(),
        name == cand(all, cands, p as int).package@,
        entry.version.text@ == cand(all, cands, p as int).version.text@,
        entry.control_file == Some(p),
        entry_sound(all, cands, provided, arch, dv, name, entry),
        forall|i: int, j: int| 0 <= i < before.len() && 0 <= j < before[i].dependencies_by_version@.len()
            ==> entry_sound(all, cands, provided, arch, dv, before[i].name@, #[trigger] before[i].dependencies_by_version@[j]),
        forall|q: int| 0 <= q < p && solvable(#[trigger] control_solutions(all, cands, provided, q, arch))
            ==> has_version(before, cand(all, cands, q).package@, cand(all, cands, q).version.text@),
        forall|a: int, b: int| #[trigger] at(after, a, b) ==> (exists|a2: int, b2: int| #[trigger] at(before, a2, b2)
            && before[a2].name@ == after[a].name@ && before[a2].dependencies_by_version@[b2] == after[a].dependencies_by_version@[b])
            || (after[a].name@ == name && carries(after[a].dependencies_by_version@[b], entry)),
        forall|a: int, b: int| #[trigger] at(before, a, b) ==> exists|a2: int, b2: int| #[trigger] at(after, a2, b2)
            && after[a2].name@ == before[a].name@ && after[a2].dependencies_by_version@[b2].version == before[a].dependencies_by_version@[b].version,
        exists|a: int, b: int| #[trigger] at(after, a, b) && after[a].name@ == name && carries(after[a].dependencies_by_version@[b], entry),
    ensures
        forall|i: int, j: int| 0 <= i < after.len() && 0 <= j < after[i].dependencies_by_version@.len()
            ==> entry_sound(all, cands, provided, arch, dv, after[i].name@, #[trigger] after[i].dependencies_by_version@[j]),
{
    assert forall|i: int, j: int| 0 <= i < after.len() && 0 <= j < after[i].dependencies_by_version@.len()
        implies entry_sound(all, cands, provided, arch, dv, after[i].name@, #[trigger] after[i].dependencies_by_version@[j]) by {
        assert(at(after, i, j));
        if exists|a2: int, b2: int| #[trigger] at(before, a2, b2)
            && before[a2].name@ == after[i].name@ && before[a2].dependencies_by_version@[b2] == after[i].dependencies_by_version@[j] {
            let (a2, b2) = choose|a2: int, b2: int| #[trigger] at(before, a2, b2)
                && before[a2].name@ == after[i].name@ && before[a2].dependencies_by_version@[b2] == after[i].dependencies_by_version@[j];
            assert(entry_sound(all, cands, provided, arch, dv, before[a2].name@, before[a2].dependencies_by_version@[b2]));
        } else {
            let e2 = after[i].dependencies_by_version@[j];
            assert(after[i].name@ == name && carries(e2, entry));
            assert(e2.dependencies == entry.dependencies);
            assert(reqs_view(e2.dependencies@) == reqs_view(entry.dependencies@));
            let q = entry.control_file.unwrap();
            assert(e2.control_file == Some(q));
            assert(q == p);
            assert(reqs_wf(e2.dependencies@));
            assert(cand(all, cands, q as int).package@ == after[i].name@);
            assert(e2.version.text@ == cand(all, cands, q as int).version.text@ || version_order(cand(all, cands, q as int).version.text@, e2.version.text@) == Ordering::Equal);
            assert(solvable(control_solutions(all, cands, provided, q as int, arch)));
            assert(table_fact(control_solutions(all, cands, provided, q as int, arch), after[i].name@, reqs_view(e2.dependencies@), dv));
        }
    }
}

proof fn lemma_after_add_complete(
    all: Seq<BinaryPackage>,
    cands: Seq<usize>,
    provided: Seq<ProvidedBy>,
    arch: Seq<char>,
    dv: Seq<DummyView>,
    before: Seq<AptPackage>,
    after: Seq<AptPackage>,
    name: Seq<char>,
    entry: DependenciesByVersionEntry,
    p: usize,
)
    requires
        cands_ok(all, cands),
        0 <= p < cands.len(),
        name == cand(all, cands, p as int).package@,
        entry.version.text@ == cand(all, cands, p as int).version.text@,
        entry.control_file == Some(p),
        entry_sound(all, cands, provided, arch, dv, name, entry),
        forall|i: int, j: int| 0 <= i < before.len() && 0 <= j < before[i].dependencies_by_version@.len()
            ==> entry_sound(all, cands, provided, arch, dv, before[i].name@, #[trigger] before[i].dependencies_by_version@[j]),
        forall|q: int| 0 <= q < p && solvable(#[trigger] control_solutions(all, cands, provided, q, arch))
            ==> has_version(before, cand(all, cands, q).package@, cand(all, cands, q).version.text@),
        forall|a: int, b: int| #[trigger] at(after, a, b) ==> (exists|a2: int, b2: int| #[trigger] at(before, a2, b2)
            && before[a2].name@ == after[a].name@ && before[a2].dependencies_by_version@[b2] == after[a].dependencies_by_version@[b])
            || (after[a].name@ == name && carries(after[a].dependencies_by_version@[b], entry)),
        forall|a: int, b: int| #[trigger] at(before, a, b) ==> exists|a2: int, b2: int| #[trigger] at(after, a2, b2)
            && after[a2].name@ == before[a].name@ && after[a2].dependencies_by_version@[b2].version == before[a].dependencies_by_version@[b].version,
        exists|a: int, b: int| #[trigger] at(after, a, b) && after[a].name@ == name && carries(after[a].dependencies_by_version@[b], entry),
    ensures
        forall|q: int| 0 <= q <= p && solvable(#[trigger] control_solutions(all, cands, provided, q, arch))
            ==> has_version(after, cand(all, cands, q).package@, cand(all, cands, q).version.text@),
{
    assert forall|q: int| 0 <= q <= p && solvable(#[trigger] control_solutions(all, cands, provided, q, arch))
        implies has_version(after, cand(all, cands, q).package@, cand(all, cands, q).version.text@) by {
        if q < p {
            let (a, b) = choose|a: int, b: int|
                0 <= a < before.len() && 0 <= b < before[a].dependencies_by_version@.len() && before[a].name@ == cand(all, cands, q).package@ && ({
                    let w = (#[trigger] before[a].dependencies_by_version@[b]).version.text@;
                    w == cand(all, cands, q).version.text@ || version_order(cand(all, cands, q).version.text@, w) == Ordering::Equal
                });
            assert(at(before, a, b));
            let (a2, b2) = choose|a2: int, b2: int| #[trigger] at(after, a2, b2)
                && after[a2].name@ == before[a].name@ && after[a2].dependencies_by_version@[b2].version == before[a].dependencies_by_version@[b].version;
            assert(after[a2].dependencies_by_version@[b2].version.text@ == before[a].dependencies_by_version@[b].version.text@);
        } else {
            let (a, b) = choose|a: int, b: int| #[trigger] at(after, a, b) && after[a].name@ == name && carries(after[a].dependencies_by_version@[b], entry);
            assert(after[a].dependencies_by_version@[b].version.text@ == cand(all, cands, q).version.text@ || version_order(cand(all, cands, q).version.text@, after[a].dependencies_by_version@[b].version.text@) == Ordering::Equal);
        }
    }
}

/// The dependency provider for one target architecture.
pub struct AptDependencyProvider {
    pub architecture: String,
    /// Indices of the records taking part (those of the architecture, then those of `all`).
    pub candidates: Vec<usize>,
    pub provided: Vec<ProvidedBy>,
    pub binary_packages: Vec<AptPackage>,
    /// The dummy package with id `d` stands at position `d`.
    pub dummy_packages: Vec<DummyPackageData>,
}

/// Some package named `name` has a version equal to `v`.
pub open spec fn has_version(pkgs: Seq<AptPackage>, name: Seq<char>, v: Seq<char>) -> bool {
    exists|i: int, j: int|
        0 <= i < pkgs.len() && 0 <= j < pkgs[i].dependencies_by_version@.len() && pkgs[i].name@ == name && ({
            let w = (#[trigger] pkgs[i].dependencies_by_version@[j]).version.text@;
            w == v || version_order(v, w) == Ordering::Equal
        })
}

impl AptDependencyProvider {
    pub open spec fn arch(&self) -> Seq<char> {
        self.architecture@
    }

    /// Well-formed: package names are distinct, each package's versions ascend, and every
    /// entry was made from a candidate of that package.
    pub open spec fn wf(&self, all: Seq<BinaryPackage>) -> bool {
        &&& cands_ok(all, self.candidates@)
        &&& provided_ok(all, self.candidates@, self.provided@)
        &&& dummies_wf(self.dummy_packages@)
        &&& forall|i: int, j: int|
            0 <= i < j < self.binary_packages@.len() ==> (#[trigger] self.binary_packages@[i]).name@
                != (#[trigger] self.binary_packages@[j]).name@
        &&& forall|i: int|
            0 <= i < self.binary_packages@.len() ==> versions_ascending((#[trigger] self.binary_packages@[i]).dependencies_by_version@)
                && self.binary_packages@[i].dependencies_by_version@.len() > 0
        &&& forall|i: int, j: int|
            0 <= i < self.binary_packages@.len() && 0 <= j < self.binary_packages@[i].dependencies_by_version@.len()
                ==> entry_sound(
                all,
                self.candidates@,
                self.provided@,
                self.arch(),
                dummies_view(self.dummy_packages@),
                self.binary_packages@[i].name@,
                #[trigger] self.binary_packages@[i].dependencies_by_version@[j],
            )
    }

    /// Every candidate whose clauses all have solutions is offered, under its name and version.
    pub open spec fn complete(&self, all: Seq<BinaryPackage>) -> bool {
        forall|p: int|
            0 <= p < self.candidates@.len() && solvable(
                #[trigger] control_solutions(all, self.candidates@, self.provided@, p, self.arch()),
            ) ==> has_version(
                self.binary_packages@,
                cand(all, self.candidates@, p).package@,
                cand(all, self.candidates@, p).version.text@,
            )
    }

    /// Builds the provider for `arch` from the records relevant to it.
    #[verifier::rlimit(100)]
    pub fn new(all: &Vec<BinaryPackage>, arch: &str) -> (r: Self)
        requires
            packages_wf(all@),
        ensures
            r.wf(all@),
            r.complete(all@),
            r.records_present(),
            r.architecture@ == arch@,
            r.candidates@ == relevant_indices(all@, arch@),
            r.provided@ == virtual_entries(all@, r.candidates@, arch@, r.candidates@.len() as int),
    {
        let cands = iterate_all_relevant_packages(all, arch);
        let provided = collect_virtual_packages(all, &cands, arch);
        let mut dummies: Vec<DummyPackageData> = Vec::new();
        let mut pkgs: Vec<AptPackage> = Vec::new();
        let mut p: usize = 0;
        while p < cands.len()
            invariant
                cands_ok(all@, cands@),
                provided_ok(all@, cands@, provided@),
                dummies_wf(dummies@),
                p <= cands@.len(),
                forall|i: int, j: int| 0 <= i < j < pkgs@.len() ==> (#[trigger] pkgs@[i]).name@ != (#[trigger] pkgs@[j]).name@,
                forall|i: int| 0 <= i < pkgs@.len() ==> versions_ascending((#[trigger] pkgs@[i]).dependencies_by_version@)
                    && pkgs@[i].dependencies_by_version@.len() > 0,
                forall|i: int, j: int| 0 <= i < pkgs@.len() && 0 <= j < pkgs@[i].dependencies_by_version@.len()
                    ==> entry_sound(all@, cands@, provided@, arch@, dummies_view(dummies@), pkgs@[i].name@, #[trigger] pkgs@[i].dependencies_by_version@[j]),
                forall|q: int| 0 <= q < p && solvable(#[trigger] control_solutions(all@, cands@, provided@, q, arch@))
                    ==> has_version(pkgs@, cand(all@, cands@, q).package@, cand(all@, cands@, q).version.text@),
            decreases cands.len() - p,
        {
            let ghost d0 = dummies@;
            let found = control_dependencies(all, &cands, &provided, p, arch, &mut dummies);
            match found {
                None => {},
                Some(deps) => {
                    let ghost sols = control_solutions(all@, cands@, provided@, p as int, arch@);
                    let control = &all[cands[p]].control_file;
                    proof {
                        assert(all@[cands@[p as int] as int].control_file.wf());
                        assert(dummies_view(d0) =~= dummies_view(dummies@).subrange(0, d0.len() as int));
                        assert forall|i: int, j: int| 0 <= i < pkgs@.len() && 0 <= j < pkgs@[i].dependencies_by_version@.len()
                            implies entry_sound(all@, cands@, provided@, arch@, dummies_view(dummies@), pkgs@[i].name@, #[trigger] pkgs@[i].dependencies_by_version@[j]) by {
                            let e = pkgs@[i].dependencies_by_version@[j];
                            let q = e.control_file.unwrap();
                            lemma_table_fact_grows(control_solutions(all@, cands@, provided@, q as int, arch@), pkgs@[i].name@, reqs_view(e.dependencies@), dummies_view(d0), dummies_view(dummies@));
                        }
                        let o = choose|o: Seq<usize>| {
                            &&& ordered_by_count(counts_of(sols), o)
                            &&& #[trigger] table(sols, o, o.len() as int, control.package@, d0.len() as nat)
                                == (reqs_view(deps@), dummies_view(dummies@).subrange(d0.len() as int, dummies@.len() as int))
                        };
                        let t = table(sols, o, o.len() as int, control.package@, d0.len() as nat);
                        assert(t.1.len() == dummies@.len() - d0.len());
                        reveal(table_fact);
                        assert(table_fact(sols, control.package@, reqs_view(deps@), dummies_view(dummies@)));
                    }
                    let entry = DependenciesByVersionEntry { version: copy_version(&control.version), dependencies: deps, control_file: Some(p) };
                    assert(entry_sound(all@, cands@, provided@, arch@, dummies_view(dummies@), control.package@, entry));
                    let ghost before = pkgs@;
                    let ghost ev = entry;
                    add_entry(&mut pkgs, &control.package, entry);
                    proof {
                        lemma_after_add_sound(all@, cands@, provided@, arch@, dummies_view(dummies@), before, pkgs@, control.package@, ev, p);
                        lemma_after_add_complete(all@, cands@, provided@, arch@, dummies_view(dummies@), before, pkgs@, control.package@, ev, p);
                    }
                },
            }
            p = p + 1;
        }
        assert forall|i: int, j: int| #[trigger] at(pkgs@, i, j) implies (match pkgs@[i].dependencies_by_version@[j].control_file {
            Some(q) => q < cands@.len(),
            None => false,
        }) by {
            assert(entry_sound(all@, cands@, provided@, arch@, dummies_view(dummies@), pkgs@[i].name@, pkgs@[i].dependencies_by_version@[j]));
        }
        AptDependencyProvider {
            architecture: arch.to_string(),
            candidates: cands,
            provided,
            binary_packages: pkgs,
            dummy_packages: dummies,
        }
    }
}


/// The range of one version constraint.
pub fn to_ranges(value: &DependencyVersionConstraint) -> (r: VersionRange)
    requires
        value.wf(),
    ensures
        r.constraints@ == seq![*value],
        r.wf(),
{
    VersionRange::of_constraint(value)
}

/// Entry `j` of package `i` has a version equal to `v` in Debian order.
pub open spec fn entry_matches(pkgs: Seq<AptPackage>, i: int, j: int, name: Seq<char>, v: Seq<char>) -> bool {
    &&& 0 <= i < pkgs.len()
    &&& 0 <= j < pkgs[i].dependencies_by_version@.len()
    &&& pkgs[i].name@ == name
    &&& version_order(pkgs[i].dependencies_by_version@[j].version.text@, v) == Ordering::Equal
}

impl AptDependencyProvider {
    /// Position of the package named `name`.
    pub fn package_index(&self, name: &str) -> (r: Option<usize>)
        ensures
            match r {
                Some(i) => i < self.binary_packages@.len() && self.binary_packages@[i as int].name@ == name@,
                None => forall|i: int| 0 <= i < self.binary_packages@.len() ==> (#[trigger] self.binary_packages@[i]).name@ != name@,
            },
    {
        let mut i: usize = 0;
        while i < self.binary_packages.len()
            invariant
                i <= self.binary_packages@.len(),
                forall|k: int| 0 <= k < i ==> (#[trigger] self.binary_packages@[k]).name@ != name@,
            decreases self.binary_packages.len() - i,
        {
            if crate::text::same_text(self.binary_packages[i].name.as_str(), name) {
                return Some(i);
            }
            i = i + 1;
        }
        None
    }

    /// Position of the entry of package `i` whose version equals `v`.
    fn entry_index(&self, i: usize, v: &DebVersion) -> (r: Option<usize>)
        requires
            i < self.binary_packages@.len(),
            versions_ascending(self.binary_packages@[i as int].dependencies_by_version@),
            v.wf(),
        ensures
            match r {
                Some(j) => entry_matches(self.binary_packages@, i as int, j as int, self.binary_packages@[i as int].name@, v.text@),
                None => forall|j: int| !entry_matches(self.binary_packages@, i as int, j, self.binary_packages@[i as int].name@, v.text@),
            },
    {
        let es = &self.binary_packages[i].dependencies_by_version;
        let mut j: usize = 0;
        while j < es.len()
            invariant
                i < self.binary_packages@.len(),
                *es == self.binary_packages@[i as int].dependencies_by_version,
                versions_ascending(es@),
                v.wf(),
                j <= es@.len(),
                forall|k: int| 0 <= k < j ==> version_order((#[trigger] es@[k]).version.text@, v.text@) != Ordering::Equal,
            decreases es.len() - j,
        {
            if matches!(compare_versions(&es[j].version, v), Ordering::Equal) {
                return Some(j);
            }
            j = j + 1;
        }
        None
    }

    /// The solver's version choice for a real package: the highest of its versions that the
    /// solver's range admits (`in_range[j]` tells whether version `j`, in ascending order, is
    /// admitted). `None` where the package is unknown or no version is admitted.
    pub fn choose_version(&self, package: &str, in_range: &Vec<bool>) -> (r: Option<usize>)
        requires
            names_distinct(self.binary_packages@),
        ensures
            match r {
                Some(j) => exists|i: int| 0 <= i < self.binary_packages@.len() && (#[trigger] self.binary_packages@[i]).name@ == package@
                    && j < in_range@.len() && j < self.binary_packages@[i].dependencies_by_version@.len() && in_range@[j as int]
                    && forall|k: int| j < k < in_range@.len() && k < self.binary_packages@[i].dependencies_by_version@.len() ==> !in_range@[k],
                None => forall|i: int| 0 <= i < self.binary_packages@.len() && (#[trigger] self.binary_packages@[i]).name@ == package@
                    ==> forall|k: int| 0 <= k < in_range@.len() && k < self.binary_packages@[i].dependencies_by_version@.len() ==> !in_range@[k],
            },
    {
        match self.package_index(package) {
            None => None,
            Some(i) => {
                let n = self.binary_packages[i].dependencies_by_version.len();
                let m = if n < in_range.len() { n } else { in_range.len() };
                let mut j: usize = m;
                while j > 0
                    invariant
                        i < self.binary_packages@.len(),
                        self.binary_packages@[i as int].name@ == package@,
                        j <= m,
                        m <= in_range@.len(),
                        m <= self.binary_packages@[i as int].dependencies_by_version@.len(),
                        m == in_range@.len() || m == self.binary_packages@[i as int].dependencies_by_version@.len(),
                        forall|k: int| j <= k < m ==> !in_range@[k],
                    decreases j,
                {
                    if in_range[j - 1] {
                        assert(self.binary_packages@[i as int].name@ == package@);
                        return Some(j - 1);
                    }
                    j = j - 1;
                }
                None
            },
        }
    }

    /// The solver's choice for a dummy package: the first alternative that the solver's range
    /// admits (`in_range[j]` for the version `j:1.0.0`).
    pub fn choose_alternative(&self, dummy: &DummyPackageKey, in_range: &Vec<bool>) -> (r: Option<usize>)
        ensures
            match r {
                Some(j) => dummy.dummy_id < self.dummy_packages@.len() && j < in_range@.len()
                    && j < self.dummy_packages@[dummy.dummy_id as int].data_by_version@.len() && in_range@[j as int]
                    && forall|k: int| 0 <= k < j ==> !in_range@[k],
                None => dummy.dummy_id >= self.dummy_packages@.len() || forall|k: int|
                    0 <= k < in_range@.len() && k < self.dummy_packages@[dummy.dummy_id as int].data_by_version@.len() ==> !in_range@[k],
            },
    {
        if dummy.dummy_id >= self.dummy_packages.len() {
            return None;
        }
        let n = self.dummy_packages[dummy.dummy_id].data_by_version.len();
        let mut j: usize = 0;
        while j < n && j < in_range.len()
            invariant
                dummy.dummy_id < self.dummy_packages@.len(),
                j <= n,
                n == self.dummy_packages@[dummy.dummy_id as int].data_by_version@.len(),
                forall|k: int| 0 <= k < j ==> !in_range@[k],
            decreases n - j,
        {
            if in_range[j] {
                return Some(j);
            }
            j = j + 1;
        }
        None
    }

    /// The requirements of version `version` of the real package `package`.
    pub fn get_dependencies(&self, package: &str, version: &DebVersion) -> (r: Result<&Vec<Requirement>, DependencyResolutionError>)
        requires
            names_distinct(self.binary_packages@),
            all_ascending(self.binary_packages@),
            version.wf(),
        ensures
            match r {
                Ok(deps) => exists|i: int, j: int| #[trigger] entry_matches(self.binary_packages@, i, j, package@, version.text@)
                    && *deps == self.binary_packages@[i].dependencies_by_version@[j].dependencies,
                Err(e) => e is ConfigError && forall|i: int, j: int| !#[trigger] entry_matches(self.binary_packages@, i, j, package@, version.text@),
            },
    {
        match self.package_index(package) {
            None => Err(DependencyResolutionError::ConfigError("Package not found".to_string())),
            Some(i) => {
                proof {
                    assert(versions_ascending(self.binary_packages@[i as int].dependencies_by_version@));
                }
                match self.entry_index(i, version) {
                    None => {
                        proof {
                            assert forall|a: int, b: int| !#[trigger] entry_matches(self.binary_packages@, a, b, package@, version.text@) by {
                                if a != i && 0 <= a < self.binary_packages@.len() && entry_matches(self.binary_packages@, a, b, package@, version.text@) {
                                    if a < i {
                                        assert(self.binary_packages@[a].name@ != self.binary_packages@[i as int].name@);
                                    } else {
                                        assert(self.binary_packages@[i as int].name@ != self.binary_packages@[a].name@);
                                    }
                                }
                            }
                        }
                        Err(DependencyResolutionError::ConfigError("Version not found".to_string()))
                    },
                    Some(j) => Ok(&self.binary_packages[i].dependencies_by_version[j].dependencies),
                }
            },
        }
    }
}


/// The root's requirements from the first `n` requested texts: each parsed as a single
/// dependency (with a well-formed version) and required of the real package it names; a later request on the same package
/// replaces an earlier one.
pub open spec fn root_requirements(texts: Seq<String>, n: int) -> Seq<ReqView>
    decreases n,
{
    if n <= 0 {
        Seq::empty()
    } else {
        let prev = root_requirements(texts, n - 1);
        let d = parsed_dependency(texts[n - 1]@).unwrap();
        let req = (ElementView::Real(d.package@), opt_constraints(d.version_constraint));
        let p = find_real(prev, d.package@);
        if p >= 0 {
            prev.update(p, req)
        } else {
            prev.push(req)
        }
    }
}

/// The name of a real package element.
pub open spec fn real_name(e: AptDependencyGraphElement) -> Seq<char> {
    match e {
        AptDependencyGraphElement::AptPackage(n) => n@,
        _ => Seq::empty(),
    }
}

/// Sorted indices without repeats.
pub open spec fn ascending_indices(v: Seq<usize>) -> bool {
    forall|i: int, j: int| 0 <= i < j < v.len() ==> v[i] < v[j]
}

fn insert_index(v: &mut Vec<usize>, x: usize)
    requires
        ascending_indices(old(v)@),
    ensures
        ascending_indices(final(v)@),
        final(v)@.to_set() == old(v)@.to_set().insert(x),
{
    let mut i: usize = 0;
    while i < v.len() && v[i] < x
        invariant
            i <= v@.len(),
            forall|k: int| 0 <= k < i ==> v@[k] < x,
        decreases v.len() - i,
    {
        i = i + 1;
    }
    let ghost pre = v@;
    if i < v.len() && v[i] == x {
        assert(pre.to_set().insert(x) =~= pre.to_set());
        return;
    }
    v.insert(i, x);
    assert(v@.to_set() =~= pre.to_set().insert(x)) by {
        assert forall|y: usize| pre.to_set().insert(y).contains(y) implies true by {}
        assert forall|y: usize| #[trigger] v@.to_set().contains(y) <==> pre.to_set().insert(x).contains(y) by {
            if v@.to_set().contains(y) {
                let k = choose|k: int| 0 <= k < v@.len() && v@[k] == y;
                if k < i {
                    assert(pre[k] == y);
                } else if k > i {
                    assert(pre[k - 1] == y);
                }
            }
            if pre.to_set().contains(y) {
                let k = choose|k: int| 0 <= k < pre.len() && pre[k] == y;
                if k < i {
                    assert(v@[k] == y);
                } else {
                    assert(v@[k + 1] == y);
                }
            }
            if y == x {
                assert(v@[i as int] == x);
            }
        }
    }
}

impl AptDependencyProvider {
    /// The requirement of alternative `alternative` of a dummy package.
    pub fn get_dummy_dependencies(&self, dummy: &DummyPackageKey, alternative: usize) -> (r: Option<Requirement>)
        requires
            dummies_wf(self.dummy_packages@),
        ensures
            match r {
                Some(req) => dummy.dummy_id < self.dummy_packages@.len()
                    && alternative < self.dummy_packages@[dummy.dummy_id as int].data_by_version@.len()
                    && req_view(req) == ({
                        let s = self.dummy_packages@[dummy.dummy_id as int].data_by_version@[alternative as int];
                        (ElementView::Real(s.package@), s.range.constraints@)
                    }),
                None => dummy.dummy_id >= self.dummy_packages@.len()
                    || alternative >= self.dummy_packages@[dummy.dummy_id as int].data_by_version@.len(),
            },
    {
        if dummy.dummy_id >= self.dummy_packages.len() || alternative >= self.dummy_packages[dummy.dummy_id].data_by_version.len() {
            return None;
        }
        let sol = &self.dummy_packages[dummy.dummy_id].data_by_version[alternative];
        proof {
            assert(sols_wf(self.dummy_packages@[dummy.dummy_id as int].data_by_version@));
        }
        let mut range = VersionRange::full();
        range.intersect(&sol.range);
        assert(range.constraints@ =~= sol.range.constraints@);
        Some(Requirement { element: AptDependencyGraphElement::AptPackage(sol.package.clone()), range })
    }

    /// The record behind entry `j` of package `i`, as an index into the records.
    pub open spec fn record_of(&self, i: int, j: int) -> Option<usize> {
        match self.binary_packages@[i].dependencies_by_version@[j].control_file {
            Some(p) => if p < self.candidates@.len() { Some(self.candidates@[p as int]) } else { None },
            None => None,
        }
    }

    /// Every entry names a candidate.
    pub open spec fn records_present(&self) -> bool {
        forall|i: int, j: int| #[trigger] at(self.binary_packages@, i, j) ==> self.record_of(i, j) is Some
    }

    /// The candidate (an index into the records) behind version `version` of `package_name`.
    pub fn get_control(&self, package_name: &str, apt_version: &DebVersion) -> (r: Option<usize>)
        requires
            self.records_present(),
            names_distinct(self.binary_packages@),
            all_ascending(self.binary_packages@),
            apt_version.wf(),
        ensures
            match r {
                Some(x) => exists|i: int, j: int| #[trigger] entry_matches(self.binary_packages@, i, j, package_name@, apt_version.text@)
                    && self.record_of(i, j) == Some(x),
                None => forall|i: int, j: int| !#[trigger] entry_matches(self.binary_packages@, i, j, package_name@, apt_version.text@),
            },
    {
        match self.package_index(package_name) {
            None => None,
            Some(i) => {
                proof {
                    assert(versions_ascending(self.binary_packages@[i as int].dependencies_by_version@));
                }
                match self.entry_index(i, apt_version) {
                    None => {
                        proof {
                            assert forall|a: int, b: int| true
                                implies !#[trigger] entry_matches(self.binary_packages@, a, b, package_name@, apt_version.text@) by {
                                if a != i && 0 <= a < self.binary_packages@.len() {
                                    if a < i {
                                        assert(self.binary_packages@[a].name@ != self.binary_packages@[i as int].name@);
                                    } else {
                                        assert(self.binary_packages@[i as int].name@ != self.binary_packages@[a].name@);
                                    }
                                }
                            }
                        }
                        None
                    },
                    Some(j) => {
                        match self.binary_packages[i].dependencies_by_version[j].control_file {
                            Some(p) => {
                                assert(entry_matches(self.binary_packages@, i as int, j as int, package_name@, apt_version.text@));
                                assert(at(self.binary_packages@, i as int, j as int));
                                Some(self.candidates[p])
                            },
                            None => {
                                assert(at(self.binary_packages@, i as int, j as int));
                                None
                            },
                        }
                    },
                }
            },
        }
    }

    /// The records a solution selects: for each real package of the solution, the candidate
    /// behind its chosen version; dummy packages and the root are dropped. Sorted, without
    /// repeats.
    pub fn collect_resolved(&self, solution: &Vec<(AptDependencyGraphElement, DebVersion)>) -> (r: Vec<usize>)
        requires
            self.records_present(),
            names_distinct(self.binary_packages@),
            all_ascending(self.binary_packages@),
            forall|k: int| 0 <= k < solution@.len() ==> (#[trigger] solution@[k]).1.wf(),
        ensures
            ascending_indices(r@),
            forall|x: usize| #[trigger] r@.contains(x) ==> exists|k: int, i: int, j: int|
                0 <= k < solution@.len() && (solution@[k].0 is AptPackage
                && #[trigger] entry_matches(self.binary_packages@, i, j, real_name(solution@[k].0), solution@[k].1.text@)
                && self.record_of(i, j) == Some(x)),
            forall|k: int| 0 <= k < solution@.len() && #[trigger] solution@[k].0 is AptPackage && (exists|i: int, j: int|
                entry_matches(self.binary_packages@, i, j, real_name(solution@[k].0), solution@[k].1.text@))
                ==> exists|i: int, j: int| #[trigger] entry_matches(self.binary_packages@, i, j, real_name(solution@[k].0), solution@[k].1.text@)
                    && r@.contains(self.record_of(i, j).unwrap()),
    {
        let mut r: Vec<usize> = Vec::new();
        let mut k: usize = 0;
        while k < solution.len()
            invariant
                self.records_present(),
                names_distinct(self.binary_packages@),
                all_ascending(self.binary_packages@),
                forall|q: int| 0 <= q < solution@.len() ==> (#[trigger] solution@[q]).1.wf(),
                k <= solution@.len(),
                ascending_indices(r@),
                forall|x: usize| #[trigger] r@.contains(x) ==> exists|q: int, i: int, j: int|
                    0 <= q < solution@.len() && (solution@[q].0 is AptPackage
                    && #[trigger] entry_matches(self.binary_packages@, i, j, real_name(solution@[q].0), solution@[q].1.text@)
                    && self.record_of(i, j) == Some(x)),
                forall|q: int| 0 <= q < k && #[trigger] solution@[q].0 is AptPackage && (exists|i: int, j: int|
                    entry_matches(self.binary_packages@, i, j, real_name(solution@[q].0), solution@[q].1.text@))
                    ==> exists|i: int, j: int| #[trigger] entry_matches(self.binary_packages@, i, j, real_name(solution@[q].0), solution@[q].1.text@)
                        && r@.contains(self.record_of(i, j).unwrap()),
            decreases solution.len() - k,
        {
            match &solution[k].0 {
                AptDependencyGraphElement::AptPackage(name) => {
                    assert(real_name(solution@[k as int].0) == name@);
                    let found = self.get_control(name.as_str(), &solution[k].1);
                    match found {
                        Some(x) => {
                            let ghost pre = r@;
                            let ghost wit = choose|i: int, j: int| #[trigger] entry_matches(self.binary_packages@, i, j, name@, solution@[k as int].1.text@)
                                && self.record_of(i, j) == Some(x);
                            insert_index(&mut r, x);
                            assert(r@.contains(x)) by {
                                assert(r@.to_set().contains(x));
                            }
                            assert forall|y: usize| #[trigger] r@.contains(y) implies exists|q: int, i: int, j: int|
                                0 <= q < solution@.len() && (solution@[q].0 is AptPackage
                                && #[trigger] entry_matches(self.binary_packages@, i, j, real_name(solution@[q].0), solution@[q].1.text@)
                                && self.record_of(i, j) == Some(y)) by {
                                assert(r@.to_set().contains(y));
                                if y != x {
                                    assert(pre.to_set().contains(y));
                                    assert(pre.contains(y));
                                }
                            }
                            assert forall|q: int| 0 <= q < k + 1 && #[trigger] solution@[q].0 is AptPackage && (exists|i: int, j: int|
                                entry_matches(self.binary_packages@, i, j, real_name(solution@[q].0), solution@[q].1.text@))
                                implies exists|i: int, j: int| #[trigger] entry_matches(self.binary_packages@, i, j, real_name(solution@[q].0), solution@[q].1.text@)
                                    && r@.contains(self.record_of(i, j).unwrap()) by {
                                if q < k {
                                    let (i, j) = choose|i: int, j: int| #[trigger] entry_matches(self.binary_packages@, i, j, real_name(solution@[q].0), solution@[q].1.text@)
                                        && pre.contains(self.record_of(i, j).unwrap());
                                    assert(pre.to_set().contains(self.record_of(i, j).unwrap()));
                                    assert(r@.to_set().contains(self.record_of(i, j).unwrap()));
                                }
                            }
                        },
                        None => {
                            assert forall|q: int| 0 <= q < k + 1 && #[trigger] solution@[q].0 is AptPackage && (exists|i: int, j: int|
                                entry_matches(self.binary_packages@, i, j, real_name(solution@[q].0), solution@[q].1.text@))
                                implies exists|i: int, j: int| #[trigger] entry_matches(self.binary_packages@, i, j, real_name(solution@[q].0), solution@[q].1.text@)
                                    && r@.contains(self.record_of(i, j).unwrap()) by {
                                if q == k {
                                    let (i, j) = choose|i: int, j: int| entry_matches(self.binary_packages@, i, j, real_name(solution@[q].0), solution@[q].1.text@);
                                    assert(entry_matches(self.binary_packages@, i, j, name@, solution@[k as int].1.text@));
                                }
                            }
                        },
                    }
                },
                _ => {},
            }
            k = k + 1;
        }
        r
    }
}

/// A requested text parses as a single dependency with a well-formed version.
pub open spec fn request_ok(t: Seq<char>) -> bool {
    parsed_dependency(t) matches Some(d) && d.wf()
}

/// The requirements of the synthetic root: each requested text parsed as a single dependency;
/// an error where one cannot be parsed or names a version that cannot be compared.
pub fn get_root_dependencies(requested: &RequestedPackages) -> (r: Result<Vec<Requirement>, DependencyResolutionError>)
    ensures
        match r {
            Ok(deps) => (forall|i: int| 0 <= i < requested.requested_packages@.len()
                ==> #[trigger] request_ok(requested.requested_packages@[i]@))
                && reqs_view(deps@) == root_requirements(requested.requested_packages@, requested.requested_packages@.len() as int),
            Err(e) => e is DebianError && exists|i: int| 0 <= i < requested.requested_packages@.len()
                && !(#[trigger] request_ok(requested.requested_packages@[i]@)),
        },
{
    let mut deps: Vec<Requirement> = Vec::new();
    let mut i: usize = 0;
    assert(reqs_view(deps@) =~= Seq::<ReqView>::empty());
    while i < requested.requested_packages.len()
        invariant
            i <= requested.requested_packages@.len(),
            forall|k: int| 0 <= k < i ==> #[trigger] request_ok(requested.requested_packages@[k]@),
            reqs_view(deps@) == root_requirements(requested.requested_packages@, i as int),
        decreases requested.requested_packages.len() - i,
    {
        match parse_single_dependency(requested.requested_packages[i].as_str()) {
            None => {
                assert(!request_ok(requested.requested_packages@[i as int]@));
                assert(exists|k: int| 0 <= k < requested.requested_packages@.len()
                    && (#[trigger] parsed_dependency(requested.requested_packages@[k]@)) is None);
                return Err(DependencyResolutionError::DebianError("Invalid requested package".to_string()));
            },
            Some(dep) => {
                if !dep.is_valid() {
                    assert(!request_ok(requested.requested_packages@[i as int]@));
                    return Err(DependencyResolutionError::DebianError("Invalid version in requested package".to_string()));
                }
                let range = VersionRange::of_optional(&dep.version_constraint);
                let req = Requirement { element: AptDependencyGraphElement::AptPackage(dep.package.clone()), range };
                let found = find_real_exec(&deps, &dep.package);
                let ghost before = deps@;
                match found {
                    Some(q) => {
                        deps.set(q, req);
                        assert(reqs_view(deps@) =~= reqs_view(before).update(q as int, req_view(req)));
                    },
                    None => {
                        deps.push(req);
                        assert(reqs_view(deps@) =~= reqs_view(before).push(req_view(req)));
                    },
                }
            },
        }
        i = i + 1;
    }
    Ok(deps)
}


/// Clause `k` with solutions `sols` is encoded: one solution is required of its package with
/// at least its constraints; several make a dummy package, required with the full range,
/// whose alternatives are exactly the solutions.
pub open spec fn encodes_clause(
    deps: Seq<ReqView>,
    dummies: Seq<DummyView>,
    owner: Seq<char>,
    k: nat,
    sols: Seq<(Seq<char>, Seq<DependencyVersionConstraint>)>,
) -> bool {
    if sols.len() == 1 {
        exists|p: int| 0 <= p < deps.len() && #[trigger] deps[p].0 == ElementView::Real(sols[0].0)
            && forall|c: DependencyVersionConstraint| sols[0].1.contains(c) ==> #[trigger] deps[p].1.contains(c)
    } else {
        exists|p: int, d: int| 0 <= p < deps.len() && 0 <= d < dummies.len()
            && #[trigger] deps[p] == (ElementView::Dummy(owner, k, dummies[d].2), Seq::<DependencyVersionConstraint>::empty())
            && #[trigger] dummies[d] == (owner, k, dummies[d].2, sols)
    }
}

proof fn lemma_find_real(deps: Seq<ReqView>, name: Seq<char>)
    ensures
        find_real(deps, name) >= 0 ==> find_real(deps, name) < deps.len() && deps[find_real(deps, name)].0 == ElementView::Real(name),
        find_real(deps, name) >= -1,
    decreases deps.len(),
{
    if deps.len() > 0 && deps.last().0 != ElementView::Real(name) {
        lemma_find_real(deps.drop_last(), name);
    }
}

proof fn lemma_encoding_kept(
    deps: Seq<ReqView>,
    dummies: Seq<DummyView>,
    deps2: Seq<ReqView>,
    dummies2: Seq<DummyView>,
    owner: Seq<char>,
    k: nat,
    sols: Seq<(Seq<char>, Seq<DependencyVersionConstraint>)>,
)
    requires
        encodes_clause(deps, dummies, owner, k, sols),
        deps.len() <= deps2.len(),
        dummies.len() <= dummies2.len(),
        forall|d: int| 0 <= d < dummies.len() ==> dummies2[d] == dummies[d],
        forall|p: int| 0 <= p < deps.len() ==> deps2[p].0 == deps[p].0
            && forall|c: DependencyVersionConstraint| deps[p].1.contains(c) ==> #[trigger] deps2[p].1.contains(c),
        forall|p: int| 0 <= p < deps.len() && deps[p].0 is Dummy ==> deps2[p] == deps[p],
    ensures
        encodes_clause(deps2, dummies2, owner, k, sols),
{
    if sols.len() == 1 {
        let p = choose|p: int| 0 <= p < deps.len() && #[trigger] deps[p].0 == ElementView::Real(sols[0].0)
            && forall|c: DependencyVersionConstraint| sols[0].1.contains(c) ==> #[trigger] deps[p].1.contains(c);
        assert(deps2[p].0 == ElementView::Real(sols[0].0));
    } else {
        let (p, d) = choose|p: int, d: int| 0 <= p < deps.len() && 0 <= d < dummies.len()
            && #[trigger] deps[p] == (ElementView::Dummy(owner, k, dummies[d].2), Seq::<DependencyVersionConstraint>::empty())
            && #[trigger] dummies[d] == (owner, k, dummies[d].2, sols);
        assert(deps2[p] == deps[p]);
        assert(dummies2[d] == dummies[d]);
    }
}

/// Every clause placed so far is encoded in the table.
pub proof fn lemma_table_encodes_clauses(
    sols: Seq<Seq<(Seq<char>, Seq<DependencyVersionConstraint>)>>,
    o: Seq<usize>,
    n: int,
    owner: Seq<char>,
    base: nat,
)
    requires
        0 <= n <= o.len(),
        forall|i: int| 0 <= i < o.len() ==> #[trigger] o[i] < sols.len(),
    ensures
        forall|t: int| 0 <= t < n ==> encodes_clause(
            table(sols, o, n, owner, base).0,
            table(sols, o, n, owner, base).1,
            owner,
            #[trigger] o[t] as nat,
            sols[o[t] as int],
        ),
    decreases n,
{
    if n > 0 {
        lemma_table_encodes_clauses(sols, o, n - 1, owner, base);
        let prev = table(sols, o, n - 1, owner, base);
        let cur = table(sols, o, n, owner, base);
        let k = o[n - 1];
        let s = sols[k as int];
        assert(k < sols.len());
        if s.len() == 1 {
            let q = find_real(prev.0, s[0].0);
            lemma_find_real(prev.0, s[0].0);
            assert forall|p: int| 0 <= p < prev.0.len() implies cur.0[p].0 == prev.0[p].0
                && forall|c: DependencyVersionConstraint| prev.0[p].1.contains(c) ==> #[trigger] cur.0[p].1.contains(c) by {
                if p == q {
                    assert forall|c: DependencyVersionConstraint| prev.0[p].1.contains(c) implies #[trigger] cur.0[p].1.contains(c) by {
                        let i = choose|i: int| 0 <= i < prev.0[p].1.len() && prev.0[p].1[i] == c;
                        assert(cur.0[p].1[i] == c);
                    }
                }
            }
            assert forall|t: int| 0 <= t < n - 1 implies encodes_clause(cur.0, cur.1, owner, #[trigger] o[t] as nat, sols[o[t] as int]) by {
                lemma_encoding_kept(prev.0, prev.1, cur.0, cur.1, owner, o[t] as nat, sols[o[t] as int]);
            }
            let p = if q >= 0 { q } else { prev.0.len() as int };
            assert(cur.0[p].0 == ElementView::Real(s[0].0));
            assert forall|c: DependencyVersionConstraint| s[0].1.contains(c) implies #[trigger] cur.0[p].1.contains(c) by {
                let i = choose|i: int| 0 <= i < s[0].1.len() && s[0].1[i] == c;
                if q >= 0 {
                    assert(cur.0[p].1[prev.0[q].1.len() + i] == c);
                } else {
                    assert(cur.0[p].1[i] == c);
                }
            }
        } else {
            assert forall|t: int| 0 <= t < n - 1 implies encodes_clause(cur.0, cur.1, owner, #[trigger] o[t] as nat, sols[o[t] as int]) by {
                lemma_encoding_kept(prev.0, prev.1, cur.0, cur.1, owner, o[t] as nat, sols[o[t] as int]);
            }
            let p = prev.0.len() as int;
            let d = prev.1.len() as int;
            assert(cur.1[d] == (owner, k as nat, cur.1[d].2, s));
            assert(cur.0[p] == (ElementView::Dummy(owner, k as nat, cur.1[d].2), Seq::<DependencyVersionConstraint>::empty()));
        }
    }
}


/// An order by count lists every clause.
pub proof fn lemma_order_covers(counts: Seq<usize>, o: Seq<usize>, k: int)
    requires
        ordered_by_count(counts, o),
        0 <= k < counts.len(),
    ensures
        exists|t: int| 0 <= t < o.len() && o[t] == k,
{
    let n = counts.len() as int;
    let oi = o.map_values(|x: usize| x as int);
    if !exists|t: int| 0 <= t < o.len() && o[t] == k {
        assert(oi.no_duplicates()) by {
            assert forall|i: int, j: int| 0 <= i < oi.len() && 0 <= j < oi.len() && i != j implies oi[i] != oi[j] by {
                if i < j {
                    assert(o[i] != o[j]);
                } else {
                    assert(o[j] != o[i]);
                }
            }
        }
        oi.unique_seq_to_set();
        vstd::set_lib::lemma_int_range(0, n);
        let r = vstd::set_lib::set_int_range(0, n).remove(k);
        assert(oi.to_set().subset_of(r)) by {
            assert forall|x: int| oi.to_set().contains(x) implies r.contains(x) by {
                let t = choose|t: int| 0 <= t < oi.len() && oi[t] == x;
                assert(o[t] < n);
                assert(o[t] != k);
            }
        }
        assert(vstd::set_lib::set_int_range(0, n).contains(k));
        vstd::set_lib::lemma_len_subset(oi.to_set(), r);
    }
}

/// An entry made from candidate `p` encodes every `Pre-Depends` and `Depends` clause of that
/// candidate: a clause with one solution as a requirement on that package carrying the
/// clause's constraints, a disjunction as a dummy package whose alternatives are exactly the
/// clause's solutions; and every clause has a solution.
pub proof fn lemma_entry_encodes_clauses(
    all: Seq<BinaryPackage>,
    cands: Seq<usize>,
    provided: Seq<ProvidedBy>,
    arch: Seq<char>,
    dv: Seq<DummyView>,
    name: Seq<char>,
    e: DependenciesByVersionEntry,
    k: int,
)
    requires
        entry_sound(all, cands, provided, arch, dv, name, e),
        0 <= k < control_solutions(all, cands, provided, e.control_file.unwrap() as int, arch).len(),
    ensures
        ({
            let sols = control_solutions(all, cands, provided, e.control_file.unwrap() as int, arch);
            &&& sols[k].len() > 0
            &&& exists|base: nat, len: nat| base + len <= dv.len() && #[trigger] encodes_clause(
                reqs_view(e.dependencies@),
                dv.subrange(base as int, (base + len) as int),
                name,
                k as nat,
                sols[k],
            )
        }),
{
    let p = e.control_file.unwrap();
    let sols = control_solutions(all, cands, provided, p as int, arch);
    reveal(table_fact);
    let (o, base) = choose|o: Seq<usize>, base: nat| {
        let t = #[trigger] table(sols, o, o.len() as int, name, base);
        &&& ordered_by_count(counts_of(sols), o)
        &&& base + t.1.len() <= dv.len()
        &&& t.0 == reqs_view(e.dependencies@)
        &&& t.1 == dv.subrange(base as int, (base + t.1.len()) as int)
    };
    let t = table(sols, o, o.len() as int, name, base);
    lemma_order_covers(counts_of(sols), o, k);
    let w = choose|w: int| 0 <= w < o.len() && o[w] == k;
    lemma_table_encodes_clauses(sols, o, o.len() as int, name, base);
    assert(encodes_clause(t.0, t.1, name, o[w] as nat, sols[o[w] as int]));
    let len = t.1.len();
    assert(encodes_clause(reqs_view(e.dependencies@), dv.subrange(base as int, (base + len) as int), name, k as nat, sols[k]));
}

} // verus!
