//! The soname audit of one package: registry, check and unused dependencies.
use vstd::prelude::*;
use crate::check::{CheckReport, all_owners, file_owners, check_binaries, unresolved_of, unresolved_views};
use crate::elf::{LibraryDependency, dep_views};
use crate::order::{compare_str, strictly_sorted, strs};
use crate::registry::{
    PackageLibraries, SonameConflict, build_registry, conflict_views, conflicts_after,
    provision_steps, registry_after,
};

verus! {

/// Whether `s` is one of the names of `v`.
pub fn has_name(v: &Vec<String>, s: &str) -> (r: bool)
    ensures
        r == strs(v@).contains(s@),
{
    let mut i: usize = 0;
    while i < v.len()
        invariant
            i <= v@.len(),
            forall|k: int| 0 <= k < i ==> strs(v@)[k] != s@,
        decreases v@.len() - i,
    {
        if compare_str(v[i].as_str(), s) == 0 {
            assert(strs(v@)[i as int] == s@);
            return true;
        }
        i = i + 1;
    }
    false
}

/// The dependency list with each builtin that it lacks appended, in order.
pub open spec fn with_builtins_spec(depends: Seq<Seq<char>>, builtins: Seq<Seq<char>>) -> Seq<
    Seq<char>,
>
    decreases builtins.len(),
{
    if builtins.len() == 0 {
        depends
    } else {
        let before = with_builtins_spec(depends, builtins.drop_last());
        if before.contains(builtins.last()) {
            before
        } else {
            before.push(builtins.last())
        }
    }
}

/// The dependency list with every builtin package in it: builtins are always present.
pub fn with_builtins(depends: &Vec<String>, builtins: &Vec<String>) -> (r: Vec<String>)
    ensures
        strs(r@) == with_builtins_spec(strs(depends@), strs(builtins@)),
{
    let mut r = depends.clone();
    let mut i: usize = 0;
    assert(strs(r@) == strs(depends@)) by {
        assert(r@ == depends@);
    }
    assert(strs(builtins@).take(0) =~= Seq::<Seq<char>>::empty());
    while i < builtins.len()
        invariant
            i <= builtins@.len(),
            strs(r@) == with_builtins_spec(strs(depends@), strs(builtins@).take(i as int)),
        decreases builtins@.len() - i,
    {
        let ghost cur = strs(builtins@).take(i + 1);
        assert(cur.drop_last() == strs(builtins@).take(i as int));
        assert(cur.last() == builtins@[i as int]@);
        if !has_name(&r, builtins[i].as_str()) {
            let ghost before = r@;
            r.push(builtins[i].clone());
            assert(strs(r@) =~= strs(before).push(builtins@[i as int]@));
        }
        i = i + 1;
    }
    assert(strs(builtins@).take(i as int) == strs(builtins@));
    r
}

/// The declared dependencies, in order, that are neither depended on nor builtin.
pub open spec fn unused_of(
    declared: Seq<Seq<char>>,
    depended: Seq<Seq<char>>,
    builtins: Seq<Seq<char>>,
) -> Seq<Seq<char>>
    decreases declared.len(),
{
    if declared.len() == 0 {
        Seq::empty()
    } else {
        let before = unused_of(declared.drop_last(), depended, builtins);
        let x = declared.last();
        if !depended.contains(x) && !builtins.contains(x) {
            before.push(x)
        } else {
            before
        }
    }
}

/// The declared dependencies that no binary uses and that are not builtin, in the
/// order they were declared.
pub fn unused_dependencies(
    declared: &Vec<String>,
    depended: &Vec<String>,
    builtins: &Vec<String>,
) -> (r: Vec<String>)
    ensures
        strs(r@) == unused_of(strs(declared@), strs(depended@), strs(builtins@)),
{
    let mut r: Vec<String> = Vec::new();
    let mut i: usize = 0;
    assert(strs(declared@).take(0) =~= Seq::<Seq<char>>::empty());
    assert(strs(r@) =~= Seq::<Seq<char>>::empty());
    while i < declared.len()
        invariant
            i <= declared@.len(),
            strs(r@) == unused_of(
                strs(declared@).take(i as int),
                strs(depended@),
                strs(builtins@),
            ),
        decreases declared@.len() - i,
    {
        let ghost cur = strs(declared@).take(i + 1);
        assert(cur.drop_last() == strs(declared@).take(i as int));
        assert(cur.last() == declared@[i as int]@);
        let name = declared[i].as_str();
        if !has_name(depended, name) && !has_name(builtins, name) {
            let ghost before = r@;
            r.push(declared[i].clone());
            assert(strs(r@) =~= strs(before).push(declared@[i as int]@));
        }
        i = i + 1;
    }
    assert(strs(declared@).take(i as int) == strs(declared@));
    r
}

/// The unused dependencies are exactly the declared ones less those depended on and
/// less the builtins.
pub proof fn lemma_unused_is_difference(
    declared: Seq<Seq<char>>,
    depended: Seq<Seq<char>>,
    builtins: Seq<Seq<char>>,
)
    ensures
        unused_of(declared, depended, builtins).to_set() == declared.to_set().difference(
            depended.to_set(),
        ).difference(builtins.to_set()),
    decreases declared.len(),
{
    if declared.len() > 0 {
        let p = declared.drop_last();
        let x = declared.last();
        lemma_unused_is_difference(p, depended, builtins);
        p.lemma_push_to_set_commute(x);
        assert(declared == p.push(x));
        let before = unused_of(p, depended, builtins);
        if !depended.contains(x) && !builtins.contains(x) {
            before.lemma_push_to_set_commute(x);
        }
        assert(unused_of(declared, depended, builtins).to_set() =~= declared.to_set().difference(
            depended.to_set(),
        ).difference(builtins.to_set()));
    } else {
        assert(unused_of(declared, depended, builtins).to_set() =~= declared.to_set().difference(
            depended.to_set(),
        ).difference(builtins.to_set()));
    }
}

/// The result of auditing the sonames of one package.
pub struct SonameAudit {
    /// Sonames claimed by two packages, in insertion order.
    pub conflicts: Vec<SonameConflict>,
    /// What checking the binaries found.
    pub report: CheckReport,
    /// Declared dependencies that nothing uses.
    pub unused: Vec<String>,
}

pub open spec fn package_names(pkgs: Seq<PackageLibraries>) -> Seq<Seq<char>> {
    pkgs.map_values(|p: PackageLibraries| p.package@)
}

/// Audits a package: registers the sonames of its dependencies and then its own,
/// resolves what its binaries need, and lists the dependencies nothing uses.
pub fn audit_sonames(
    target: &PackageLibraries,
    depends: &Vec<PackageLibraries>,
    binaries: &Vec<LibraryDependency>,
    builtins: &Vec<String>,
) -> (r: SonameAudit)
    ensures
        ({
            let reg = registry_after(provision_steps(depends@.push(*target)));
            &&& conflict_views(r.conflicts@) == conflicts_after(
                provision_steps(depends@.push(*target)),
            )
            &&& strictly_sorted(strs(r.report.depended@))
            &&& strs(r.report.depended@).to_set() == all_owners(reg, dep_views(binaries@)).to_set()
            &&& unresolved_views(r.report.unresolved@) == unresolved_of(reg, dep_views(binaries@))
            &&& r.report.files@.len() == binaries@.len()
            &&& forall|i: int|
                0 <= i < binaries@.len() ==> {
                    &&& (#[trigger] r.report.files@[i]).file@ == binaries@[i].name@
                    &&& strictly_sorted(strs(r.report.files@[i].packages@))
                    &&& strs(r.report.files@[i].packages@).to_set() == file_owners(
                        reg,
                        strs(binaries@[i].needed@),
                        target.package@,
                    ).to_set()
                }
            &&& strs(r.unused@) == unused_of(
                package_names(depends@),
                strs(r.report.depended@),
                strs(builtins@),
            )
        }),
{
    let (registry, conflicts) = build_registry(depends, target);
    let report = check_binaries(&registry, target.package.as_str(), binaries);
    let mut declared: Vec<String> = Vec::new();
    let mut i: usize = 0;
    while i < depends.len()
        invariant
            i <= depends@.len(),
            strs(declared@) == package_names(depends@).take(i as int),
        decreases depends@.len() - i,
    {
        let ghost before = declared@;
        declared.push(depends[i].package.clone());
        assert(strs(declared@) =~= package_names(depends@).take(i + 1)) by {
            assert(strs(declared@) =~= strs(before).push(depends@[i as int].package@));
        }
        i = i + 1;
    }
    assert(package_names(depends@).take(i as int) == package_names(depends@));
    let unused = unused_dependencies(&declared, &report.depended, builtins);
    SonameAudit { conflicts, report, unused }
}

} // verus!
