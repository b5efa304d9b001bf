//! Single dependencies, architecture qualifiers and version ranges.
use crate::text::same_text;
use crate::version::{satisfies, version_text_ok, DebVersion, DependencyVersionConstraint, VersionRelationship};
use debian_packaging::dependency::{SingleDependency as ParsedDependency, VersionRelationship as Rel};
use vstd::prelude::*;

verus! {

/// One alternative of a dependency clause: `package (op version) [arch ...]`.
#[derive(Clone, Debug, PartialEq, Eq)]
pub struct SingleDependency {
    pub package: String,
    pub version_constraint: Option<DependencyVersionConstraint>,
    /// The qualifier `[a b]` as `(false, [a, b])`, `[!a !b]` as `(true, [a, b])`.
    pub architectures: Option<(bool, Vec<String>)>,
}

impl SingleDependency {
    pub open spec fn wf(&self) -> bool {
        self.version_constraint matches Some(c) ==> c.wf()
    }

    /// Whether the dependency is well formed.
    pub fn is_valid(&self) -> (r: bool)
        ensures
            r == self.wf(),
    {
        match &self.version_constraint {
            Some(c) => c.version.is_valid(),
            None => true,
        }
    }
}

/// Whether one of `arches` names `arch`, `all` or `any`.
pub open spec fn arch_listed(arches: Seq<String>, arch: Seq<char>) -> bool {
    exists|i: int|
        0 <= i < arches.len() && (#[trigger] arches[i]@ == arch || arches[i]@ == seq!['a', 'l', 'l']
            || arches[i]@ == seq!['a', 'n', 'y'])
}

/// The dependency applies on `arch`: it has no qualifier, or a plain qualifier that lists
/// the target (or `all`/`any`), or a negated one that does not.
pub open spec fn arch_applies(dep: SingleDependency, arch: Seq<char>) -> bool {
    match dep.architectures {
        None => true,
        Some((negate, arches)) => if negate {
            !arch_listed(arches@, arch)
        } else {
            arch_listed(arches@, arch)
        },
    }
}

/// Whether the dependency's architecture qualifier admits `architecture`.
pub fn arch_matches(dep: &SingleDependency, architecture: &str) -> (r: bool)
    ensures
        r == arch_applies(*dep, architecture@),
{
    match &dep.architectures {
        None => true,
        Some((negate, arches)) => {
            let mut contains = false;
            let mut i: usize = 0;
            while i < arches.len()
                invariant
                    i <= arches.len(),
                    contains == exists|k: int|
                        0 <= k < i && (#[trigger] arches@[k]@ == architecture@ || arches@[k]@
                            == seq!['a', 'l', 'l'] || arches@[k]@ == seq!['a', 'n', 'y']),
                decreases arches.len() - i,
            {
                let x = arches[i].as_str();
                let hit = same_text(x, architecture) || same_text(x, "all") || same_text(x, "any");
                proof {
                    reveal_strlit("all");
                    reveal_strlit("any");
                    assert("all"@ =~= seq!['a', 'l', 'l']);
                    assert("any"@ =~= seq!['a', 'n', 'y']);
                }
                if hit {
                    contains = true;
                }
                i = i + 1;
            }
            if *negate {
                !contains
            } else {
                contains
            }
        }
    }
}

/// A conjunction of version constraints; the empty conjunction admits every version.
#[derive(Clone, Debug, PartialEq, Eq)]
pub struct VersionRange {
    pub constraints: Vec<DependencyVersionConstraint>,
}

impl VersionRange {
    pub open spec fn wf(&self) -> bool {
        forall|i: int| 0 <= i < self.constraints@.len() ==> (#[trigger] self.constraints@[i]).wf()
    }

    /// Version `v` lies in the range.
    pub open spec fn holds(&self, v: Seq<char>) -> bool {
        forall|i: int| 0 <= i < self.constraints@.len() ==> satisfies(v, #[trigger] self.constraints@[i])
    }

    /// The range of every version.
    pub fn full() -> (r: VersionRange)
        ensures
            r.constraints@.len() == 0,
            r.wf(),
    {
        VersionRange { constraints: Vec::new() }
    }

    /// The range of one constraint.
    pub fn of_constraint(c: &DependencyVersionConstraint) -> (r: VersionRange)
        requires
            c.wf(),
        ensures
            r.constraints@ == seq![*c],
            r.wf(),
    {
        let mut v = Vec::new();
        v.push(copy_constraint(c));
        VersionRange { constraints: v }
    }

    /// The range of a dependency's optional constraint.
    pub fn of_optional(c: &Option<DependencyVersionConstraint>) -> (r: VersionRange)
        requires
            c matches Some(k) ==> k.wf(),
        ensures
            r.constraints@ == match *c {
                Some(k) => seq![k],
                None => Seq::<DependencyVersionConstraint>::empty(),
            },
            r.wf(),
    {
        match c {
            Some(k) => VersionRange::of_constraint(k),
            None => VersionRange::full(),
        }
    }

    /// Narrows this range by every constraint of `other`.
    pub fn intersect(&mut self, other: &VersionRange)
        requires
            old(self).wf(),
            other.wf(),
        ensures
            final(self).constraints@ == old(self).constraints@ + other.constraints@,
            final(self).wf(),
    {
        let mut i: usize = 0;
        while i < other.constraints.len()
            invariant
                i <= other.constraints@.len(),
                self.constraints@ == old(self).constraints@ + other.constraints@.subrange(0, i as int),
                self.wf(),
                other.wf(),
            decreases other.constraints.len() - i,
        {
            let c = copy_constraint(&other.constraints[i]);
            self.constraints.push(c);
            assert(other.constraints@.subrange(0, i + 1) =~= other.constraints@.subrange(0, i as int).push(other.constraints@[i as int]));
            i = i + 1;
        }
        assert(other.constraints@.subrange(0, i as int) =~= other.constraints@);
    }

    /// Whether `v` lies in the range.
    pub fn contains(&self, v: &DebVersion) -> (r: bool)
        requires
            self.wf(),
            v.wf(),
        ensures
            r == self.holds(v.text@),
    {
        let mut i: usize = 0;
        while i < self.constraints.len()
            invariant
                i <= self.constraints@.len(),
                self.wf(),
                v.wf(),
                forall|k: int| 0 <= k < i ==> satisfies(v.text@, #[trigger] self.constraints@[k]),
            decreases self.constraints.len() - i,
        {
            if !self.constraints[i].admits(v) {
                return false;
            }
            i = i + 1;
        }
        true
    }
}

/// A copy of a version.
pub fn copy_version(v: &DebVersion) -> (r: DebVersion)
    ensures
        r == *v,
{
    DebVersion { text: v.text.clone() }
}

/// A copy of a constraint.
pub fn copy_constraint(c: &DependencyVersionConstraint) -> (r: DependencyVersionConstraint)
    ensures
        r == *c,
{
    DependencyVersionConstraint { relationship: c.relationship, version: copy_version(&c.version) }
}

/// What `SingleDependency::parse` of debian-packaging makes of a text, where it accepts it.
pub uninterp spec fn parsed_dependency(text: Seq<char>) -> Option<SingleDependency>;

/// Relies on `debian_packaging::dependency::SingleDependency::parse`: reads
/// `name (op version) [arches]`; the version it returns went through
/// `PackageVersion::parse`, and `PackageVersion`'s display of it parses again.
#[verifier::external_body]
pub fn parse_single_dependency(text: &str) -> (r: Option<SingleDependency>)
    ensures
        r == parsed_dependency(text@),
        r matches Some(d) ==> (d.version_constraint matches Some(c) ==> version_text_ok(c.version.text@)),
{
    ParsedDependency::parse(text).ok().map(|d| SingleDependency {
        package: d.package,
        version_constraint: d.version_constraint.map(|c| DependencyVersionConstraint {
            relationship: match c.relationship {
                Rel::StrictlyEarlier => VersionRelationship::StrictlyEarlier,
                Rel::EarlierOrEqual => VersionRelationship::EarlierOrEqual,
                Rel::ExactlyEqual => VersionRelationship::ExactlyEqual,
                Rel::LaterOrEqual => VersionRelationship::LaterOrEqual,
                Rel::StrictlyLater => VersionRelationship::StrictlyLater,
            },
            version: DebVersion { text: c.version.to_string() },
        }),
        architectures: d.architectures,
    })
}

} // verus!
