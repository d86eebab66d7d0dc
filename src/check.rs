//! Checking the binaries of a package against the soname registry.
use vstd::prelude::*;
use crate::elf::{LibraryDependency, dep_views};
use crate::order::{insert_sorted, strictly_sorted, strs};
use crate::registry::SonameRegistry;

verus! {

/// A soname that a binary needs and that no package provides.
pub struct Unresolved {
    pub binary: String,
    pub soname: String,
}

/// The packages, other than the target, that provide what one binary needs.
pub struct FileDependencies {
    pub file: String,
    pub packages: Vec<String>,
}

/// What checking the binaries of a package found.
pub struct CheckReport {
    /// Every package that provides a soname some binary needs, sorted.
    pub depended: Vec<String>,
    /// Every needed soname that no package provides, binary by binary.
    pub unresolved: Vec<Unresolved>,
    /// For each binary, the other packages it depends on.
    pub files: Vec<FileDependencies>,
}

pub open spec fn unresolved_view(u: Unresolved) -> (Seq<char>, Seq<char>) {
    (u.binary@, u.soname@)
}

pub open spec fn unresolved_views(v: Seq<Unresolved>) -> Seq<(Seq<char>, Seq<char>)> {
    v.map_values(|u: Unresolved| unresolved_view(u))
}

/// The owners of the needed sonames that the registry knows, in order.
pub open spec fn owners_of(reg: Map<Seq<char>, Seq<char>>, needed: Seq<Seq<char>>) -> Seq<Seq<char>>
    decreases needed.len(),
{
    if needed.len() == 0 {
        Seq::empty()
    } else if reg.contains_key(needed.last()) {
        owners_of(reg, needed.drop_last()).push(reg[needed.last()])
    } else {
        owners_of(reg, needed.drop_last())
    }
}

/// The owners of the needed sonames other than `target`.
pub open spec fn file_owners(
    reg: Map<Seq<char>, Seq<char>>,
    needed: Seq<Seq<char>>,
    target: Seq<char>,
) -> Seq<Seq<char>>
    decreases needed.len(),
{
    if needed.len() == 0 {
        Seq::empty()
    } else if reg.contains_key(needed.last()) && reg[needed.last()] != target {
        file_owners(reg, needed.drop_last(), target).push(reg[needed.last()])
    } else {
        file_owners(reg, needed.drop_last(), target)
    }
}

/// The needed sonames that the registry does not know, in order.
pub open spec fn missing_of(reg: Map<Seq<char>, Seq<char>>, needed: Seq<Seq<char>>) -> Seq<Seq<char>>
    decreases needed.len(),
{
    if needed.len() == 0 {
        Seq::empty()
    } else if !reg.contains_key(needed.last()) {
        missing_of(reg, needed.drop_last()).push(needed.last())
    } else {
        missing_of(reg, needed.drop_last())
    }
}

/// The owners of everything the binaries need.
pub open spec fn all_owners(
    reg: Map<Seq<char>, Seq<char>>,
    bins: Seq<(Seq<char>, Seq<Seq<char>>)>,
) -> Seq<Seq<char>>
    decreases bins.len(),
{
    if bins.len() == 0 {
        Seq::empty()
    } else {
        all_owners(reg, bins.drop_last()) + owners_of(reg, bins.last().1)
    }
}

/// Each binary with each soname it needs that the registry does not know.
pub open spec fn unresolved_of(
    reg: Map<Seq<char>, Seq<char>>,
    bins: Seq<(Seq<char>, Seq<Seq<char>>)>,
) -> Seq<(Seq<char>, Seq<char>)>
    decreases bins.len(),
{
    if bins.len() == 0 {
        Seq::empty()
    } else {
        let name = bins.last().0;
        unresolved_of(reg, bins.drop_last()) + missing_of(reg, bins.last().1).map_values(
            |s: Seq<char>| (name, s),
        )
    }
}

/// No soname reported unresolved is known to the registry.
pub proof fn lemma_unresolved_not_registered(
    reg: Map<Seq<char>, Seq<char>>,
    bins: Seq<(Seq<char>, Seq<Seq<char>>)>,
)
    ensures
        forall|i: int|
            0 <= i < unresolved_of(reg, bins).len() ==> !reg.contains_key(
                #[trigger] unresolved_of(reg, bins)[i].1,
            ),
    decreases bins.len(),
{
    if bins.len() > 0 {
        lemma_unresolved_not_registered(reg, bins.drop_last());
        lemma_missing_not_registered(reg, bins.last().1);
        let a = unresolved_of(reg, bins.drop_last());
        let name = bins.last().0;
        let b = missing_of(reg, bins.last().1).map_values(|s: Seq<char>| (name, s));
        assert forall|i: int| 0 <= i < (a + b).len() implies !reg.contains_key(
            #[trigger] (a + b)[i].1,
        ) by {
            if i < a.len() {
                assert((a + b)[i] == a[i]);
            } else {
                assert((a + b)[i] == b[i - a.len()]);
                assert(b[i - a.len()].1 == missing_of(reg, bins.last().1)[i - a.len()]);
            }
        }
    }
}

proof fn lemma_missing_not_registered(reg: Map<Seq<char>, Seq<char>>, needed: Seq<Seq<char>>)
    ensures
        forall|i: int|
            0 <= i < missing_of(reg, needed).len() ==> !reg.contains_key(
                #[trigger] missing_of(reg, needed)[i],
            ),
    decreases needed.len(),
{
    if needed.len() > 0 {
        let p = missing_of(reg, needed.drop_last());
        lemma_missing_not_registered(reg, needed.drop_last());
        assert forall|i: int| 0 <= i < missing_of(reg, needed).len() implies !reg.contains_key(
            #[trigger] missing_of(reg, needed)[i],
        ) by {
            if i < p.len() {
                assert(missing_of(reg, needed)[i] == p[i]);
            }
        }
    }
}

fn check_binary(
    reg: &SonameRegistry,
    target: &str,
    bin: &LibraryDependency,
    depended: &mut Vec<String>,
    unresolved: &mut Vec<Unresolved>,
) -> (r: FileDependencies)
    requires
        reg.wf(),
        strictly_sorted(strs(old(depended)@)),
    ensures
        strictly_sorted(strs(final(depended)@)),
        strs(final(depended)@).to_set() == strs(old(depended)@).to_set() + owners_of(
            reg@,
            strs(bin.needed@),
        ).to_set(),
        unresolved_views(final(unresolved)@) == unresolved_views(old(unresolved)@) + missing_of(
            reg@,
            strs(bin.needed@),
        ).map_values(|s: Seq<char>| (bin.name@, s)),
        r.file@ == bin.name@,
        strictly_sorted(strs(r.packages@)),
        strs(r.packages@).to_set() == file_owners(reg@, strs(bin.needed@), target@).to_set(),
{
    let ghost nd = strs(bin.needed@);
    let ghost d0 = strs(depended@).to_set();
    let ghost u0 = unresolved_views(unresolved@);
    let ghost name = bin.name@;
    let mut packages: Vec<String> = Vec::new();
    let mut j: usize = 0;
    assert(nd.take(0) =~= Seq::<Seq<char>>::empty());
    assert(strs(depended@).to_set() =~= d0 + Seq::<Seq<char>>::empty().to_set());
    assert(unresolved_views(unresolved@) =~= u0 + Seq::<Seq<char>>::empty().map_values(
        |s: Seq<char>| (name, s),
    ));
    assert(strs(packages@).to_set() =~= Set::empty());
    while j < bin.needed.len()
        invariant
            reg.wf(),
            j <= bin.needed@.len() == nd.len(),
            nd == strs(bin.needed@),
            name == bin.name@,
            strictly_sorted(strs(depended@)),
            strictly_sorted(strs(packages@)),
            strs(depended@).to_set() == d0 + owners_of(reg@, nd.take(j as int)).to_set(),
            unresolved_views(unresolved@) == u0 + missing_of(reg@, nd.take(j as int)).map_values(
                |s: Seq<char>| (name, s),
            ),
            strs(packages@).to_set() == file_owners(reg@, nd.take(j as int), target@).to_set(),
        decreases bin.needed@.len() - j,
    {
        let ghost pre = nd.take(j as int);
        let ghost cur = nd.take(j + 1);
        assert(cur.drop_last() == pre);
        assert(cur.last() == bin.needed@[j as int]@);
        let soname = &bin.needed[j];
        match reg.owner(soname.as_str()) {
            Some(o) => {
                let ghost ov = o@;
                insert_sorted(depended, o.clone());
                proof {
                    owners_of(reg@, pre).lemma_push_to_set_commute(ov);
                    assert(strs(depended@).to_set() =~= d0 + owners_of(reg@, cur).to_set());
                }
                if compare_str_eq(o.as_str(), target) {
                } else {
                    insert_sorted(&mut packages, o);
                    proof {
                        file_owners(reg@, pre, target@).lemma_push_to_set_commute(ov);
                    }
                }
            },
            None => {
                let ghost uv = unresolved_views(unresolved@);
                unresolved.push(Unresolved { binary: bin.name.clone(), soname: soname.clone() });
                proof {
                    assert(unresolved_views(unresolved@) =~= uv.push((name, cur.last())));
                    assert(missing_of(reg@, cur) == missing_of(reg@, pre).push(cur.last()));
                    assert(missing_of(reg@, cur).map_values(|s: Seq<char>| (name, s)) =~= missing_of(
                        reg@,
                        pre,
                    ).map_values(|s: Seq<char>| (name, s)).push((name, cur.last())));
                }
            },
        }
        j = j + 1;
    }
    assert(nd.take(j as int) == nd);
    FileDependencies { file: bin.name.clone(), packages }
}

fn compare_str_eq(a: &str, b: &str) -> (r: bool)
    ensures
        r == (a@ == b@),
{
    crate::order::compare_str(a, b) == 0
}

/// Resolves every soname each binary needs against the registry.
pub fn check_binaries(reg: &SonameRegistry, target: &str, bins: &Vec<LibraryDependency>) -> (r:
    CheckReport)
    requires
        reg.wf(),
    ensures
        strictly_sorted(strs(r.depended@)),
        strs(r.depended@).to_set() == all_owners(reg@, dep_views(bins@)).to_set(),
        unresolved_views(r.unresolved@) == unresolved_of(reg@, dep_views(bins@)),
        forall|i: int|
            0 <= i < r.unresolved@.len() ==> !reg@.contains_key(#[trigger] r.unresolved@[i].soname@),
        r.files@.len() == bins@.len(),
        forall|i: int|
            0 <= i < bins@.len() ==> {
                &&& (#[trigger] r.files@[i]).file@ == bins@[i].name@
                &&& strictly_sorted(strs(r.files@[i].packages@))
                &&& strs(r.files@[i].packages@).to_set() == file_owners(
                    reg@,
                    strs(bins@[i].needed@),
                    target@,
                ).to_set()
            },
{
    let mut depended: Vec<String> = Vec::new();
    let mut unresolved: Vec<Unresolved> = Vec::new();
    let mut files: Vec<FileDependencies> = Vec::new();
    let mut i: usize = 0;
    assert(dep_views(bins@).take(0) =~= Seq::<(Seq<char>, Seq<Seq<char>>)>::empty());
    assert(strs(depended@).to_set() =~= Set::empty());
    assert(unresolved_views(unresolved@) =~= Seq::empty());
    while i < bins.len()
        invariant
            reg.wf(),
            i <= bins@.len(),
            strictly_sorted(strs(depended@)),
            strs(depended@).to_set() == all_owners(reg@, dep_views(bins@).take(i as int)).to_set(),
            unresolved_views(unresolved@) == unresolved_of(reg@, dep_views(bins@).take(i as int)),
            files@.len() == i,
            forall|k: int|
                0 <= k < i ==> {
                    &&& (#[trigger] files@[k]).file@ == bins@[k].name@
                    &&& strictly_sorted(strs(files@[k].packages@))
                    &&& strs(files@[k].packages@).to_set() == file_owners(
                        reg@,
                        strs(bins@[k].needed@),
                        target@,
                    ).to_set()
                },
        decreases bins@.len() - i,
    {
        let ghost pre = dep_views(bins@).take(i as int);
        let ghost cur = dep_views(bins@).take(i + 1);
        assert(cur.drop_last() == pre);
        assert(cur.last() == (bins@[i as int].name@, strs(bins@[i as int].needed@)));
        let f = check_binary(reg, target, &bins[i], &mut depended, &mut unresolved);
        proof {
            vstd::seq_lib::seq_to_set_distributes_over_add(
                all_owners(reg@, pre),
                owners_of(reg@, cur.last().1),
            );
        }
        files.push(f);
        i = i + 1;
    }
    assert(dep_views(bins@).take(i as int) == dep_views(bins@));
    proof {
        lemma_unresolved_not_registered(reg@, dep_views(bins@));
        assert forall|i: int| 0 <= i < unresolved@.len() implies !reg@.contains_key(
            #[trigger] unresolved@[i].soname@,
        ) by {
            assert(unresolved_views(unresolved@)[i].1 == unresolved@[i].soname@);
        }
    }
    CheckReport { depended, unresolved, files }
}

} // verus!
