//! The soname registry: which package owns each soname.
use vstd::prelude::*;
use crate::order::{compare_str, strs};

verus! {

/// A map from soname to the single package that owns it.
pub struct SonameRegistry {
    entries: Vec<(String, String)>,
    map: Ghost<Map<Seq<char>, Seq<char>>>,
}

impl View for SonameRegistry {
    type V = Map<Seq<char>, Seq<char>>;

    closed spec fn view(&self) -> Map<Seq<char>, Seq<char>> {
        self.map@
    }
}

impl SonameRegistry {
    /// The entries are the map: one entry per soname.
    pub closed spec fn wf(&self) -> bool {
        &&& forall|i: int|
            0 <= i < self.entries@.len() ==> #[trigger] self.map@.contains_key(
                self.entries@[i].0@,
            ) && self.map@[self.entries@[i].0@] == self.entries@[i].1@
        &&& forall|k: Seq<char>|
            #[trigger] self.map@.contains_key(k) ==> exists|i: int|
                0 <= i < self.entries@.len() && self.entries@[i].0@ == k
        &&& forall|i: int, j: int|
            0 <= i < j < self.entries@.len() ==> #[trigger] self.entries@[i].0@
                != #[trigger] self.entries@[j].0@
    }

    /// An empty registry.
    pub fn new() -> (r: SonameRegistry)
        ensures
            r.wf(),
            r@ == Map::<Seq<char>, Seq<char>>::empty(),
    {
        SonameRegistry { entries: Vec::new(), map: Ghost(Map::empty()) }
    }

    fn position(&self, soname: &str) -> (r: Option<usize>)
        requires
            self.wf(),
        ensures
            r matches Some(i) ==> i < self.entries@.len() && self.entries@[i as int].0@ == soname@,
            r is None <==> !self@.contains_key(soname@),
    {
        let mut i: usize = 0;
        while i < self.entries.len()
            invariant
                self.wf(),
                i <= self.entries@.len(),
                forall|k: int| 0 <= k < i ==> self.entries@[k].0@ != soname@,
            decreases self.entries@.len() - i,
        {
            if compare_str(self.entries[i].0.as_str(), soname) == 0 {
                return Some(i);
            }
            i = i + 1;
        }
        None
    }

    /// The owner of a soname, if it has one.
    pub fn owner(&self, soname: &str) -> (r: Option<String>)
        requires
            self.wf(),
        ensures
            r matches Some(o) ==> self@.contains_key(soname@) && self@[soname@] == o@,
            r is None <==> !self@.contains_key(soname@),
    {
        match self.position(soname) {
            Some(i) => Some(self.entries[i].1.clone()),
            None => None,
        }
    }

    /// Records `owner` as the owner of `soname`, replacing any earlier owner, and
    /// returns that earlier owner.
    pub fn insert(&mut self, soname: String, owner: String) -> (r: Option<String>)
        requires
            old(self).wf(),
        ensures
            final(self).wf(),
            final(self)@ == old(self)@.insert(soname@, owner@),
            r matches Some(o) ==> old(self)@.contains_key(soname@) && old(self)@[soname@] == o@,
            r is None <==> !old(self)@.contains_key(soname@),
    {
        let ghost k = soname@;
        let ghost v = owner@;
        match self.position(soname.as_str()) {
            Some(i) => {
                let prev = self.entries[i].1.clone();
                self.entries.set(i, (soname, owner));
                self.map = Ghost(self.map@.insert(k, v));
                proof {
                    assert forall|j: int| 0 <= j < self.entries@.len() implies #[trigger] self.map@.contains_key(
                        self.entries@[j].0@,
                    ) && self.map@[self.entries@[j].0@] == self.entries@[j].1@ by {
                        if j != i {
                            assert(self.entries@[j] == old(self).entries@[j]);
                        }
                    }
                    assert forall|x: Seq<char>| #[trigger] self.map@.contains_key(x) implies exists|j: int|
                        0 <= j < self.entries@.len() && self.entries@[j].0@ == x by {
                        if x == k {
                            assert(self.entries@[i as int].0@ == x);
                        } else {
                            let j = choose|j: int| 0 <= j < old(self).entries@.len() && old(self).entries@[j].0@ == x;
                            assert(self.entries@[j] == old(self).entries@[j]);
                        }
                    }
                }
                Some(prev)
            },
            None => {
                self.entries.push((soname, owner));
                self.map = Ghost(self.map@.insert(k, v));
                proof {
                    let n = self.entries@.len() - 1;
                    assert forall|j: int| 0 <= j < self.entries@.len() implies #[trigger] self.map@.contains_key(
                        self.entries@[j].0@,
                    ) && self.map@[self.entries@[j].0@] == self.entries@[j].1@ by {
                        if j < n {
                            assert(self.entries@[j] == old(self).entries@[j]);
                            assert(old(self).map@.contains_key(old(self).entries@[j].0@));
                        }
                    }
                    assert forall|x: Seq<char>| #[trigger] self.map@.contains_key(x) implies exists|j: int|
                        0 <= j < self.entries@.len() && self.entries@[j].0@ == x by {
                        if x == k {
                            assert(self.entries@[n].0@ == x);
                        } else {
                            let j = choose|j: int| 0 <= j < old(self).entries@.len() && old(self).entries@[j].0@ == x;
                            assert(self.entries@[j] == old(self).entries@[j]);
                        }
                    }
                    assert forall|a: int, b: int| 0 <= a < b < self.entries@.len() implies #[trigger] self.entries@[a].0@
                        != #[trigger] self.entries@[b].0@ by {
                        if b == n {
                            assert(self.entries@[a] == old(self).entries@[a]);
                            assert(old(self).map@.contains_key(old(self).entries@[a].0@));
                        } else {
                            assert(self.entries@[a] == old(self).entries@[a]);
                            assert(self.entries@[b] == old(self).entries@[b]);
                        }
                    }
                }
                None
            },
        }
    }
}

/// The sonames that one package provides.
pub struct PackageLibraries {
    pub package: String,
    pub libraries: Vec<String>,
}

/// A soname claimed by two different packages, in the order they were inserted.
pub struct SonameConflict {
    pub soname: String,
    pub first_owner: String,
    pub second_owner: String,
}

pub open spec fn conflict_view(c: SonameConflict) -> (Seq<char>, Seq<char>, Seq<char>) {
    (c.soname@, c.first_owner@, c.second_owner@)
}

pub open spec fn conflict_views(v: Seq<SonameConflict>) -> Seq<(Seq<char>, Seq<char>, Seq<char>)> {
    v.map_values(|c: SonameConflict| conflict_view(c))
}

/// The insertions a package makes: each of its sonames, owned by it.
pub open spec fn steps_of(p: PackageLibraries) -> Seq<(Seq<char>, Seq<char>)> {
    strs(p.libraries@).map_values(|l: Seq<char>| (l, p.package@))
}

/// The insertions of a sequence of packages, in order.
pub open spec fn provision_steps(pkgs: Seq<PackageLibraries>) -> Seq<(Seq<char>, Seq<char>)>
    decreases pkgs.len(),
{
    if pkgs.len() == 0 {
        Seq::empty()
    } else {
        provision_steps(pkgs.drop_last()) + steps_of(pkgs.last())
    }
}

/// The registry after a sequence of insertions, the later winning.
pub open spec fn registry_after(steps: Seq<(Seq<char>, Seq<char>)>) -> Map<Seq<char>, Seq<char>>
    decreases steps.len(),
{
    if steps.len() == 0 {
        Map::empty()
    } else {
        registry_after(steps.drop_last()).insert(steps.last().0, steps.last().1)
    }
}

/// The conflicts met along a sequence of insertions: each insertion that replaces an
/// owner by a different one.
pub open spec fn conflicts_after(steps: Seq<(Seq<char>, Seq<char>)>) -> Seq<
    (Seq<char>, Seq<char>, Seq<char>),
>
    decreases steps.len(),
{
    if steps.len() == 0 {
        Seq::empty()
    } else {
        let before = registry_after(steps.drop_last());
        let (k, v) = steps.last();
        if before.contains_key(k) && before[k] != v {
            conflicts_after(steps.drop_last()).push((k, before[k], v))
        } else {
            conflicts_after(steps.drop_last())
        }
    }
}

fn insert_package(
    reg: &mut SonameRegistry,
    conflicts: &mut Vec<SonameConflict>,
    p: &PackageLibraries,
    done: Ghost<Seq<(Seq<char>, Seq<char>)>>,
)
    requires
        old(reg).wf(),
        old(reg)@ == registry_after(done@),
        conflict_views(old(conflicts)@) == conflicts_after(done@),
    ensures
        final(reg).wf(),
        final(reg)@ == registry_after(done@ + steps_of(*p)),
        conflict_views(final(conflicts)@) == conflicts_after(done@ + steps_of(*p)),
{
    let ghost st = steps_of(*p);
    let mut j: usize = 0;
    assert(done@ + st.take(0) == done@);
    while j < p.libraries.len()
        invariant
            j <= p.libraries@.len() == st.len(),
            st == steps_of(*p),
            reg.wf(),
            reg@ == registry_after(done@ + st.take(j as int)),
            conflict_views(conflicts@) == conflicts_after(done@ + st.take(j as int)),
        decreases p.libraries@.len() - j,
    {
        let ghost before = done@ + st.take(j as int);
        let ghost after = done@ + st.take(j + 1);
        assert(after.drop_last() == before);
        assert(after.last() == (p.libraries@[j as int]@, p.package@));
        let soname = p.libraries[j].clone();
        let prev = reg.insert(soname.clone(), p.package.clone());
        match prev {
            Some(o) => {
                if !(o == p.package) {
                    let ghost cs = conflicts@;
                    conflicts.push(
                        SonameConflict { soname, first_owner: o, second_owner: p.package.clone() },
                    );
                    assert(conflict_views(conflicts@) =~= conflict_views(cs).push(
                        (after.last().0, registry_after(before)[after.last().0], after.last().1),
                    )) by {
                        assert(conflict_views(conflicts@) =~= conflict_views(cs).push(
                            conflict_view(conflicts@.last()),
                        ));
                    }
                }
            },
            None => {},
        }
        j = j + 1;
    }
    assert(st.take(j as int) == st);
}

/// Builds the registry from the dependency packages, in order, then the target, and
/// reports every insertion that replaced an owner by a different one.
pub fn build_registry(depends: &Vec<PackageLibraries>, target: &PackageLibraries) -> (r: (
    SonameRegistry,
    Vec<SonameConflict>,
))
    ensures
        r.0.wf(),
        r.0@ == registry_after(provision_steps(depends@.push(*target))),
        conflict_views(r.1@) == conflicts_after(provision_steps(depends@.push(*target))),
{
    let mut reg = SonameRegistry::new();
    let mut conflicts: Vec<SonameConflict> = Vec::new();
    let mut i: usize = 0;
    assert(conflict_views(conflicts@) =~= Seq::empty());
    while i < depends.len()
        invariant
            i <= depends@.len(),
            reg.wf(),
            reg@ == registry_after(provision_steps(depends@.take(i as int))),
            conflict_views(conflicts@) == conflicts_after(provision_steps(depends@.take(i as int))),
        decreases depends@.len() - i,
    {
        assert(depends@.take(i + 1).drop_last() == depends@.take(i as int));
        insert_package(&mut reg, &mut conflicts, &depends[i], Ghost(provision_steps(depends@.take(i as int))));
        i = i + 1;
    }
    assert(depends@.take(i as int) == depends@);
    assert(depends@.push(*target).drop_last() == depends@);
    insert_package(&mut reg, &mut conflicts, target, Ghost(provision_steps(depends@)));
    (reg, conflicts)
}

/// Whether some insertion names soname `k`.
pub open spec fn names_soname(steps: Seq<(Seq<char>, Seq<char>)>, k: Seq<char>) -> bool {
    exists|i: int| 0 <= i < steps.len() && steps[i].0 == k
}

/// A soname has an owner exactly when some insertion named it, and its owner is the
/// package of the last insertion that did.
pub proof fn lemma_registry_owner(steps: Seq<(Seq<char>, Seq<char>)>, k: Seq<char>)
    ensures
        registry_after(steps).contains_key(k) <==> names_soname(steps, k),
        registry_after(steps).contains_key(k) ==> exists|i: int|
            0 <= i < steps.len() && steps[i] == (k, registry_after(steps)[k]) && forall|j: int|
                i < j < steps.len() ==> steps[j].0 != k,
    decreases steps.len(),
{
    if steps.len() > 0 {
        let p = steps.drop_last();
        lemma_registry_owner(p, k);
        let n = steps.len() - 1;
        if steps.last().0 == k {
            assert(steps[n] == (k, registry_after(steps)[k]));
        } else {
            if names_soname(p, k) {
                let i = choose|i: int| 0 <= i < p.len() && p[i].0 == k;
                assert(steps[i].0 == k);
            }
            if names_soname(steps, k) {
                let i = choose|i: int| 0 <= i < steps.len() && steps[i].0 == k;
                assert(p[i].0 == k);
            }
            if registry_after(steps).contains_key(k) {
                let i = choose|i: int|
                    0 <= i < p.len() && p[i] == (k, registry_after(p)[k]) && forall|j: int|
                        i < j < p.len() ==> p[j].0 != k;
                assert(steps[i] == p[i]);
                assert forall|j: int| i < j < steps.len() implies steps[j].0 != k by {
                    if j < n {
                        assert(steps[j] == p[j]);
                    }
                }
            }
        }
    }
}

proof fn lemma_provision_steps_members(pkgs: Seq<PackageLibraries>, x: (Seq<char>, Seq<char>))
    ensures
        provision_steps(pkgs).contains(x) <==> exists|p: PackageLibraries|
            pkgs.contains(p) && steps_of(p).contains(x),
    decreases pkgs.len(),
{
    if pkgs.len() > 0 {
        let q = pkgs.drop_last();
        lemma_provision_steps_members(q, x);
        let a = provision_steps(q);
        let b = steps_of(pkgs.last());
        assert(provision_steps(pkgs) == a + b);
        if (a + b).contains(x) {
            let i = choose|i: int| 0 <= i < (a + b).len() && (a + b)[i] == x;
            if i < a.len() {
                assert(a[i] == x);
                assert(a.contains(x));
                let p = choose|p: PackageLibraries| q.contains(p) && steps_of(p).contains(x);
                let k = choose|k: int| 0 <= k < q.len() && q[k] == p;
                assert(pkgs[k] == p);
                assert(pkgs.contains(p));
            } else {
                assert(b[i - a.len()] == x);
                assert(b.contains(x));
                assert(pkgs[pkgs.len() - 1] == pkgs.last());
                assert(pkgs.contains(pkgs.last()));
            }
        }
        if exists|p: PackageLibraries| pkgs.contains(p) && steps_of(p).contains(x) {
            let p = choose|p: PackageLibraries| pkgs.contains(p) && steps_of(p).contains(x);
            let k = choose|k: int| 0 <= k < pkgs.len() && pkgs[k] == p;
            let m = choose|m: int| 0 <= m < steps_of(p).len() && steps_of(p)[m] == x;
            if k < pkgs.len() - 1 {
                assert(q[k] == p);
                assert(q.contains(p));
                assert(a.contains(x));
                let i = choose|i: int| 0 <= i < a.len() && a[i] == x;
                assert((a + b)[i] == x);
            } else {
                assert((a + b)[a.len() + m] == x);
            }
        }
    }
}

/// The order in which the dependency packages are inserted does not change who owns
/// a soname that the target provides (the target), nor one that only one package
/// provides.
pub proof fn lemma_registry_order_free(
    deps1: Seq<PackageLibraries>,
    deps2: Seq<PackageLibraries>,
    target: PackageLibraries,
    k: Seq<char>,
)
    requires
        deps1.to_set() == deps2.to_set(),
        strs(target.libraries@).contains(k) || forall|x: (Seq<char>, Seq<char>), y: (Seq<char>, Seq<char>)|
            #![trigger provision_steps(deps1).contains(x), provision_steps(deps1).contains(y)]
            provision_steps(deps1).contains(x) && provision_steps(deps1).contains(y) && x.0 == k
                && y.0 == k ==> x.1 == y.1,
    ensures
        registry_after(provision_steps(deps1.push(target))).contains_key(k) == registry_after(
            provision_steps(deps2.push(target)),
        ).contains_key(k),
        registry_after(provision_steps(deps1.push(target))).contains_key(k) ==> registry_after(
            provision_steps(deps1.push(target)),
        )[k] == registry_after(provision_steps(deps2.push(target)))[k],
{
    let t = steps_of(target);
    let a1 = provision_steps(deps1);
    let a2 = provision_steps(deps2);
    assert(deps1.push(target).drop_last() == deps1);
    assert(deps2.push(target).drop_last() == deps2);
    let s1 = a1 + t;
    let s2 = a2 + t;
    assert(provision_steps(deps1.push(target)) == s1);
    assert(provision_steps(deps2.push(target)) == s2);
    assert forall|x: (Seq<char>, Seq<char>)| a1.contains(x) <==> a2.contains(x) by {
        lemma_provision_steps_members(deps1, x);
        lemma_provision_steps_members(deps2, x);
        assert(forall|p: PackageLibraries| deps1.contains(p) <==> deps1.to_set().contains(p));
        assert(forall|p: PackageLibraries| deps2.contains(p) <==> deps2.to_set().contains(p));
    }
    lemma_registry_owner(s1, k);
    lemma_registry_owner(s2, k);
    if strs(target.libraries@).contains(k) {
        let m = choose|m: int| 0 <= m < strs(target.libraries@).len() && strs(target.libraries@)[m] == k;
        assert(t[m].0 == k);
        assert(s1[a1.len() + m].0 == k);
        assert(s2[a2.len() + m].0 == k);
        let i1 = choose|i: int|
            0 <= i < s1.len() && s1[i] == (k, registry_after(s1)[k]) && forall|j: int|
                i < j < s1.len() ==> s1[j].0 != k;
        let i2 = choose|i: int|
            0 <= i < s2.len() && s2[i] == (k, registry_after(s2)[k]) && forall|j: int|
                i < j < s2.len() ==> s2[j].0 != k;
        assert(i1 >= a1.len());
        assert(i2 >= a2.len());
        assert(s1[i1] == t[i1 - a1.len()]);
        assert(s2[i2] == t[i2 - a2.len()]);
    } else {
        assert forall|i: int| 0 <= i < t.len() implies t[i].0 != k by {
            assert(strs(target.libraries@)[i] == t[i].0);
        }
        if names_soname(s1, k) {
            let i = choose|i: int| 0 <= i < s1.len() && s1[i].0 == k;
            assert(i < a1.len());
            assert(a1.contains(s1[i]));
            assert(a2.contains(s1[i]));
            let j = choose|j: int| 0 <= j < a2.len() && a2[j] == s1[i];
            assert(s2[j].0 == k);
        }
        if names_soname(s2, k) {
            let i = choose|i: int| 0 <= i < s2.len() && s2[i].0 == k;
            assert(i < a2.len());
            assert(a2.contains(s2[i]));
            assert(a1.contains(s2[i]));
            let j = choose|j: int| 0 <= j < a1.len() && a1[j] == s2[i];
            assert(s1[j].0 == k);
        }
        if registry_after(s1).contains_key(k) {
            let i1 = choose|i: int|
                0 <= i < s1.len() && s1[i] == (k, registry_after(s1)[k]) && forall|j: int|
                    i < j < s1.len() ==> s1[j].0 != k;
            let i2 = choose|i: int|
                0 <= i < s2.len() && s2[i] == (k, registry_after(s2)[k]) && forall|j: int|
                    i < j < s2.len() ==> s2[j].0 != k;
            assert(i1 < a1.len());
            assert(i2 < a2.len());
            assert(a1.contains(s1[i1]));
            assert(a2.contains(s2[i2]));
            assert(a1.contains(s2[i2]));
        }
    }
}

} // verus!
