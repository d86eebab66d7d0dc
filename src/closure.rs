//! The dependency closure of a set of packages, discovered one package at a time.
use vstd::prelude::*;
use crate::order::{compare_str, strs};
use crate::cycles::{edge_exists, has_edge};
use crate::text::{field_of, has_prefix, nth_field, starts_with};

verus! {

/// A package and the packages it declares as dependencies.
pub struct Package {
    pub name: String,
    pub depends: Vec<String>,
}

/// The dependencies a package-database listing declares: the fourth space-separated
/// field of each line that starts with `  Depends:`.
pub open spec fn listed_depends(lines: Seq<Seq<char>>) -> Seq<Seq<char>>
    decreases lines.len(),
{
    if lines.len() == 0 {
        Seq::empty()
    } else {
        let before = listed_depends(lines.drop_last());
        let line = lines.last();
        if has_prefix(line, "  Depends:"@) && nth_field(line, 3) is Some {
            before.push(nth_field(line, 3)->0)
        } else {
            before
        }
    }
}

/// Reads the declared dependencies out of a package-database listing, one entry per line.
pub fn parse_depends(lines: &Vec<String>) -> (r: Vec<String>)
    ensures
        strs(r@) == listed_depends(strs(lines@)),
{
    let mut r: Vec<String> = Vec::new();
    let mut i: usize = 0;
    assert(strs(lines@).take(0) =~= Seq::<Seq<char>>::empty());
    assert(strs(r@) =~= Seq::<Seq<char>>::empty());
    while i < lines.len()
        invariant
            i <= lines@.len(),
            strs(r@) == listed_depends(strs(lines@).take(i as int)),
        decreases lines@.len() - i,
    {
        let ghost cur = strs(lines@).take(i + 1);
        assert(cur.drop_last() == strs(lines@).take(i as int));
        assert(cur.last() == lines@[i as int]@);
        let line = lines[i].as_str();
        if starts_with(line, "  Depends:") {
            match field_of(line, 3) {
                Some(f) => {
                    let ghost before = r@;
                    r.push(f);
                    assert(strs(r@) =~= strs(before).push(r@.last()@));
                },
                None => {},
            }
        }
        i = i + 1;
    }
    assert(strs(lines@).take(i as int) == strs(lines@));
    r
}

pub open spec fn package_view(p: Package) -> (Seq<char>, Seq<Seq<char>>) {
    (p.name@, strs(p.depends@))
}

/// The names of the known packages, in the order they were discovered.
pub open spec fn known_names(known: Seq<(Seq<char>, Seq<Seq<char>>)>) -> Seq<Seq<char>> {
    known.map_values(|p: (Seq<char>, Seq<Seq<char>>)| p.0)
}

/// No name is known twice.
pub open spec fn distinct_names(known: Seq<(Seq<char>, Seq<Seq<char>>)>) -> bool {
    forall|i: int, j: int| 0 <= i < j < known.len() ==> #[trigger] known[i].0 != #[trigger] known[j].0
}

/// Every dependency of a known package is known or still to be looked at.
pub open spec fn closed_under(known: Seq<(Seq<char>, Seq<Seq<char>>)>, pending: Seq<Seq<char>>) -> bool {
    forall|i: int, k: int|
        0 <= i < known.len() && 0 <= k < known[i].1.len() ==> known_names(known).contains(
            #[trigger] known[i].1[k],
        ) || pending.contains(known[i].1[k])
}

/// Every dependency of a known package is known.
pub open spec fn complete(known: Seq<(Seq<char>, Seq<Seq<char>>)>) -> bool {
    closed_under(known, Seq::empty())
}

/// Package `a` declares package `b` as a dependency.
pub open spec fn dep_edge(known: Seq<(Seq<char>, Seq<Seq<char>>)>, a: int, b: int) -> bool {
    0 <= a < known.len() && 0 <= b < known.len() && known[a].1.contains(known[b].0)
}

/// The packages discovered so far, and the names still to look at.
pub struct ClosureBuilder {
    known: Vec<Package>,
    pending: Vec<String>,
}

impl View for ClosureBuilder {
    type V = (Seq<(Seq<char>, Seq<Seq<char>>)>, Seq<Seq<char>>);

    closed spec fn view(&self) -> (Seq<(Seq<char>, Seq<Seq<char>>)>, Seq<Seq<char>>) {
        (self.known@.map_values(|p: Package| package_view(p)), strs(self.pending@))
    }
}

impl ClosureBuilder {
    pub open spec fn wf(&self) -> bool {
        distinct_names(self@.0) && closed_under(self@.0, self@.1)
    }

    /// A traversal that starts from `roots`.
    pub fn new(roots: Vec<String>) -> (r: ClosureBuilder)
        ensures
            r.wf(),
            r@.0 == Seq::<(Seq<char>, Seq<Seq<char>>)>::empty(),
            r@.1 == strs(roots@),
    {
        let r = ClosureBuilder { known: Vec::new(), pending: roots };
        assert(r@.0 =~= Seq::<(Seq<char>, Seq<Seq<char>>)>::empty());
        r
    }

    /// The packages discovered so far, in the order they were discovered.
    pub fn packages(&self) -> (r: &Vec<Package>)
        ensures
            r@.map_values(|p: Package| package_view(p)) == self@.0,
    {
        &self.known
    }

    /// The position of a package among those discovered.
    pub fn index_of(&self, name: &str) -> (r: Option<usize>)
        ensures
            r matches Some(i) ==> i < self@.0.len() && self@.0[i as int].0 == name@,
            r is None ==> !known_names(self@.0).contains(name@),
    {
        let mut i: usize = 0;
        while i < self.known.len()
            invariant
                i <= self.known@.len() == self@.0.len(),
                forall|k: int| 0 <= k < i ==> self@.0[k].0 != name@,
            decreases self.known@.len() - i,
        {
            if compare_str(self.known[i].name.as_str(), name) == 0 {
                return Some(i);
            }
            i = i + 1;
        }
        proof {
            assert forall|k: int| 0 <= k < self@.0.len() implies known_names(self@.0)[k] != name@ by {
            }
        }
        None
    }

    /// Whether a package has been discovered.
    pub fn is_known(&self, name: &str) -> (r: bool)
        ensures
            r == known_names(self@.0).contains(name@),
    {
        match self.index_of(name) {
            Some(i) => {
                assert(known_names(self@.0)[i as int] == name@);
                true
            },
            None => false,
        }
    }

    /// Drops the names at the end of the pending list that are already known, and
    /// returns the next name to look up, which stays pending until it is recorded.
    /// Nothing is returned once every dependency of every known package is known.
    pub fn next_unknown(&mut self) -> (r: Option<String>)
        requires
            old(self).wf(),
        ensures
            final(self).wf(),
            final(self)@.0 == old(self)@.0,
            r matches Some(n) ==> !known_names(final(self)@.0).contains(n@) && final(self)@.1.len() > 0
                && final(self)@.1.last() == n@,
            r is None ==> final(self)@.1.len() == 0 && complete(final(self)@.0),
            r is None ==> forall|k: int|
                0 <= k < old(self)@.1.len() ==> known_names(old(self)@.0).contains(
                    #[trigger] old(self)@.1[k],
                ),
            r matches Some(n) ==> exists|m: int|
                0 < m <= old(self)@.1.len() && final(self)@.1 == old(self)@.1.take(m) && n@ == old(
                    self,
                )@.1[m - 1] && forall|j: int|
                    m <= j < old(self)@.1.len() ==> known_names(old(self)@.0).contains(
                        #[trigger] old(self)@.1[j],
                    ),
    {
        assert(old(self)@.1.take(old(self)@.1.len() as int) == old(self)@.1);
        loop
            invariant
                self.wf(),
                self@.0 == old(self)@.0,
                self@.1.len() <= old(self)@.1.len(),
                self@.1 == old(self)@.1.take(self@.1.len() as int),
                forall|j: int|
                    self@.1.len() <= j < old(self)@.1.len() ==> known_names(old(self)@.0).contains(
                        #[trigger] old(self)@.1[j],
                    ),
            decreases self.pending@.len(),
        {
            if self.pending.len() == 0 {
                proof {
                    assert forall|i: int, k: int|
                        0 <= i < self@.0.len() && 0 <= k < self@.0[i].1.len() implies known_names(
                            self@.0,
                        ).contains(#[trigger] self@.0[i].1[k]) || Seq::<Seq<char>>::empty().contains(
                            self@.0[i].1[k],
                        ) by {
                        assert(!self@.1.contains(self@.0[i].1[k]));
                    }
                }
                return None;
            }
            let last = self.pending.len() - 1;
            if self.is_known(self.pending[last].as_str()) {
                let ghost before = self@;
                let ghost top = self@.1.last();
                self.pending.pop();
                proof {
                    assert(self@.1 =~= before.1.drop_last());
                    assert(self@.1 =~= old(self)@.1.take(self@.1.len() as int));
                    assert(old(self)@.1[self@.1.len() as int] == top);
                    assert forall|i: int, k: int|
                        0 <= i < self@.0.len() && 0 <= k < self@.0[i].1.len() implies known_names(
                            self@.0,
                        ).contains(#[trigger] self@.0[i].1[k]) || self@.1.contains(self@.0[i].1[k]) by {
                        let d = self@.0[i].1[k];
                        if !known_names(self@.0).contains(d) {
                            assert(before.1.contains(d));
                            let m = choose|m: int| 0 <= m < before.1.len() && before.1[m] == d;
                            if m == before.1.len() - 1 {
                                assert(d == top);
                            } else {
                                assert(self@.1[m] == d);
                            }
                        }
                    }
                }
            } else {
                let n = self.pending[last].clone();
                proof {
                    let m = self@.1.len() as int;
                    assert(n@ == self.pending@[last as int]@);
                    assert(self@.1[m - 1] == self.pending@[last as int]@);
                    assert(old(self)@.1.take(m)[m - 1] == old(self)@.1[m - 1]);
                    assert(n@ == old(self)@.1[m - 1]);
                }
                return Some(n);
            }
        }
    }

    /// Records what a package depends on. A package already known is left as it is,
    /// so that no package is visited twice.
    pub fn record(&mut self, name: String, depends: Vec<String>) -> (r: bool)
        requires
            old(self).wf(),
        ensures
            final(self).wf(),
            r == !known_names(old(self)@.0).contains(name@),
            !r ==> final(self)@ == old(self)@,
            r ==> final(self)@.0 == old(self)@.0.push((name@, strs(depends@))),
            r ==> final(self)@.1 == old(self)@.1 + strs(depends@),
    {
        if self.is_known(name.as_str()) {
            return false;
        }
        let ghost before = self@;
        let ghost nv = (name@, strs(depends@));
        let mut i: usize = 0;
        while i < depends.len()
            invariant
                i <= depends@.len(),
                self.known@ == old(self).known@,
                self@.0 == before.0,
                self@.1 == before.1 + strs(depends@).take(i as int),
            decreases depends@.len() - i,
        {
            let ghost p = self.pending@;
            self.pending.push(depends[i].clone());
            assert(self@.1 =~= before.1 + strs(depends@).take(i + 1)) by {
                assert(strs(self.pending@) =~= strs(p).push(depends@[i as int]@));
            }
            i = i + 1;
        }
        assert(strs(depends@).take(i as int) == strs(depends@));
        self.known.push(Package { name, depends });
        proof {
            assert(self@.0 =~= before.0.push(nv));
            assert(known_names(self@.0) =~= known_names(before.0).push(nv.0));
            assert forall|a: int, b: int| 0 <= a < b < self@.0.len() implies #[trigger] self@.0[a].0
                != #[trigger] self@.0[b].0 by {
                if b == before.0.len() {
                    assert(known_names(before.0)[a] == self@.0[a].0);
                }
            }
            assert forall|a: int, k: int|
                0 <= a < self@.0.len() && 0 <= k < self@.0[a].1.len() implies known_names(
                    self@.0,
                ).contains(#[trigger] self@.0[a].1[k]) || self@.1.contains(self@.0[a].1[k]) by {
                let d = self@.0[a].1[k];
                if a == before.0.len() {
                    assert(self@.1[before.1.len() + k] == d);
                } else {
                    if known_names(before.0).contains(d) {
                        let m = choose|m: int| 0 <= m < before.0.len() && known_names(before.0)[m] == d;
                        assert(known_names(self@.0)[m] == d);
                    } else {
                        let m = choose|m: int| 0 <= m < before.1.len() && before.1[m] == d;
                        assert(self@.1[m] == d);
                    }
                }
            }
        }
        true
    }

    /// The dependency graph of the known packages: an edge from each package to each
    /// known package it declares, packages numbered in the order they were discovered.
    pub fn dependency_edges(&self) -> (r: Vec<(u32, u32)>)
        requires
            self.wf(),
            self@.0.len() < u32::MAX,
        ensures
            forall|k: int|
                0 <= k < r@.len() ==> (#[trigger] r@[k]).0 < self@.0.len() && r@[k].1 < self@.0.len(),
            forall|a: int, b: int| has_edge(r@, a, b) <==> dep_edge(self@.0, a, b),
            forall|k1: int, k2: int| 0 <= k1 < k2 < r@.len() ==> r@[k1] != r@[k2],
    {
        let ghost kn = self@.0;
        let n = self.known.len();
        let mut r: Vec<(u32, u32)> = Vec::new();
        let mut a: usize = 0;
        while a < n
            invariant
                kn == self@.0,
                self.wf(),
                n == kn.len() < u32::MAX,
                a <= n,
                forall|k: int| 0 <= k < r@.len() ==> (#[trigger] r@[k]).0 < n && r@[k].1 < n,
                forall|x: int, y: int| #[trigger] has_edge(r@, x, y) <==> x < a && dep_edge(kn, x, y),
                forall|k1: int, k2: int| 0 <= k1 < k2 < r@.len() ==> r@[k1] != r@[k2],
            decreases n - a,
        {
            let deps = &self.known[a].depends;
            assert(strs(deps@) == kn[a as int].1);
            let mut j: usize = 0;
            while j < deps.len()
                invariant
                    kn == self@.0,
                    self.wf(),
                    n == kn.len() < u32::MAX,
                    a < n,
                    j <= deps@.len(),
                    strs(deps@) == kn[a as int].1,
                    forall|k: int| 0 <= k < r@.len() ==> (#[trigger] r@[k]).0 < n && r@[k].1 < n,
                    forall|x: int, y: int|
                        #[trigger] has_edge(r@, x, y) <==> (x < a && dep_edge(kn, x, y)) || (x == a && 0 <= y < n
                            && kn[a as int].1.take(j as int).contains(kn[y].0)),
                    forall|k1: int, k2: int| 0 <= k1 < k2 < r@.len() ==> r@[k1] != r@[k2],
                decreases deps@.len() - j,
            {
                let ghost dn = deps@[j as int]@;
                assert(kn[a as int].1.take(j + 1) == kn[a as int].1.take(j as int).push(dn));
                assert forall|v: Seq<char>| #[trigger] kn[a as int].1.take(j + 1).contains(v) <==> kn[a as int].1.take(
                    j as int,
                ).contains(v) || v == dn by {
                    let t = kn[a as int].1.take(j as int);
                    if t.push(dn).contains(v) {
                        let m = choose|m: int| 0 <= m < t.len() + 1 && t.push(dn)[m] == v;
                        if m < t.len() {
                            assert(t[m] == v);
                        }
                    }
                    if t.contains(v) {
                        let m = choose|m: int| 0 <= m < t.len() && t[m] == v;
                        assert(t.push(dn)[m] == v);
                    }
                    if v == dn {
                        assert(t.push(dn)[t.len() as int] == v);
                    }
                }
                match self.index_of(deps[j].as_str()) {
                    Some(b) => {
                        if !edge_exists(&r, a, b) {
                            let ghost before = r@;
                            r.push((a as u32, b as u32));
                            proof {
                                assert forall|x: int, y: int| #[trigger] has_edge(r@, x, y) <==> has_edge(before, x, y)
                                    || (x == a && y == b) by {
                                    if has_edge(r@, x, y) {
                                        let k = choose|k: int| 0 <= k < r@.len() && r@[k].0 as int == x && r@[k].1 as int == y;
                                        if k < before.len() {
                                            assert(before[k] == r@[k]);
                                        }
                                    }
                                    if has_edge(before, x, y) {
                                        let k = choose|k: int| 0 <= k < before.len() && before[k].0 as int == x && before[k].1 as int == y;
                                        assert(r@[k] == before[k]);
                                    }
                                    if x == a && y == b {
                                        assert(r@[before.len() as int] == (a as u32, b as u32));
                                    }
                                }
                                assert forall|k1: int, k2: int| 0 <= k1 < k2 < r@.len() implies r@[k1] != r@[k2] by {
                                    if k2 == before.len() {
                                        assert(before[k1] == r@[k1]);
                                        if r@[k1] == r@[k2] {
                                            assert(has_edge(before, a as int, b as int));
                                        }
                                    }
                                }
                                assert forall|x: int, y: int| #[trigger] has_edge(r@, x, y) <==> (x < a && dep_edge(kn, x, y)) || (
                                    x == a && 0 <= y < n && kn[a as int].1.take(j + 1).contains(kn[y].0)) by {
                                    if x == a && 0 <= y < n && kn[y].0 == dn {
                                        if y != b {
                                            assert(kn[y].0 == kn[b as int].0);
                                        }
                                    }
                                }
                            }
                        } else {
                            proof {
                                assert(has_edge(r@, a as int, b as int));
                                assert(kn[a as int].1.take(j as int).contains(kn[b as int].0));
                                assert forall|x: int, y: int| #[trigger] has_edge(r@, x, y) <==> (x < a && dep_edge(kn, x, y)) || (
                                    x == a && 0 <= y < n && kn[a as int].1.take(j + 1).contains(kn[y].0)) by {
                                    if x == a && 0 <= y < n {
                                        if kn[y].0 == dn {
                                            if y != b {
                                                assert(kn[y].0 == kn[b as int].0);
                                            }
                                            assert(kn[a as int].1.take(j as int).contains(kn[y].0));
                                        }
                                        assert(kn[a as int].1.take(j + 1).contains(kn[y].0) == kn[a as int].1.take(
                                            j as int,
                                        ).contains(kn[y].0));
                                    }
                                }
                            }
                        }
                    },
                    None => {
                        proof {
                            assert forall|x: int, y: int| #[trigger] has_edge(r@, x, y) <==> (x < a && dep_edge(kn, x, y)) || (
                                x == a && 0 <= y < n && kn[a as int].1.take(j + 1).contains(kn[y].0)) by {
                                if x == a && 0 <= y < n {
                                    if kn[y].0 == dn {
                                        assert(known_names(kn)[y] == dn);
                                        assert(known_names(kn).contains(dn));
                                    }
                                    assert(kn[a as int].1.take(j + 1).contains(kn[y].0) == kn[a as int].1.take(
                                        j as int,
                                    ).contains(kn[y].0));
                                }
                            }
                        }
                    },
                }
                j = j + 1;
            }
            assert(kn[a as int].1.take(j as int) == kn[a as int].1);
            assert(kn[a as int].1.len() == deps@.len());
            assert forall|x: int, y: int| #[trigger] has_edge(r@, x, y) <==> x < a + 1 && dep_edge(kn, x, y) by {
                if has_edge(r@, x, y) {
                    let k = choose|k: int| 0 <= k < r@.len() && r@[k].0 as int == x && r@[k].1 as int == y;
                    assert(r@[k].0 < n && r@[k].1 < n);
                }
                if x == a && 0 <= y < n {
                    assert(kn[a as int].1.take(j as int).contains(kn[y].0) == kn[a as int].1.contains(kn[y].0));
                }
            }
            a = a + 1;
        }
        r
    }

    /// The names of the packages of a cycle, the first repeated at the end.
    pub fn cycle_names(&self, c: &Vec<usize>) -> (r: Vec<String>)
        requires
            c@.len() >= 1,
            forall|i: int| 0 <= i < c@.len() ==> #[trigger] c@[i] < self@.0.len(),
        ensures
            strs(r@) == c@.map_values(|i: usize| self@.0[i as int].0).push(self@.0[c@[0] as int].0),
    {
        let ghost kn = self@.0;
        let mut r: Vec<String> = Vec::new();
        let mut i: usize = 0;
        while i < c.len()
            invariant
                kn == self@.0,
                i <= c@.len(),
                forall|x: int| 0 <= x < c@.len() ==> #[trigger] c@[x] < kn.len(),
                strs(r@) == c@.take(i as int).map_values(|i: usize| kn[i as int].0),
            decreases c@.len() - i,
        {
            let ghost before = r@;
            r.push(self.known[c[i]].name.clone());
            assert(strs(r@) =~= c@.take(i + 1).map_values(|i: usize| kn[i as int].0)) by {
                assert(strs(r@) =~= strs(before).push(kn[c@[i as int] as int].0));
            }
            i = i + 1;
        }
        assert(c@.take(i as int) == c@);
        let ghost before = r@;
        r.push(self.known[c[0]].name.clone());
        assert(strs(r@) =~= strs(before).push(kn[c@[0] as int].0));
        r
    }
}

/// However the traversal goes, each discovered name stands for exactly one package,
/// and so for exactly one node of the graph.
pub proof fn lemma_one_node_per_name(b: ClosureBuilder, name: Seq<char>)
    requires
        b.wf(),
        known_names(b@.0).contains(name),
    ensures
        exists|i: int|
            0 <= i < b@.0.len() && b@.0[i].0 == name && forall|j: int|
                0 <= j < b@.0.len() && b@.0[j].0 == name ==> j == i,
{
    let i = choose|i: int| 0 <= i < known_names(b@.0).len() && known_names(b@.0)[i] == name;
    assert(b@.0[i].0 == name);
    assert forall|j: int| 0 <= j < b@.0.len() && b@.0[j].0 == name implies j == i by {
        if j < i {
            assert(b@.0[j].0 != b@.0[i].0);
        } else if j > i {
            assert(b@.0[i].0 != b@.0[j].0);
        }
    }
}

} // verus!
