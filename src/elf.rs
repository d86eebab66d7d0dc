//! What the ELF objects of a package provide and need.
use vstd::prelude::*;
use crate::order::{
    compare_str, compare_strs, lemma_str_lt_irreflexive, lemma_str_lt_total,
    lemma_str_lt_transitive, lemma_strs_lt_irreflexive,
    lemma_strs_lt_transitive, sorted_by, sorted_set, str_lt, strict_order, strictly_sorted, strs,
    strs_lt, insert_sorted, lemma_insert_sorted_by, lemma_sorted_unique, lemma_str_lt_strict_order,
};
use crate::text::{
    base_name, base_name_of, bracket_value, bracket_value_of, contains, contains_str, has_prefix,
    starts_with,
};

verus! {

/// The dynamic section of one installed file, as the ELF inspector reports it.
pub struct ElfObject {
    pub path: String,
    pub soname: Option<String>,
    pub needed: Vec<String>,
}

/// A binary of a package and the shared objects it needs at load time.
pub struct LibraryDependency {
    pub name: String,
    pub needed: Vec<String>,
}

pub open spec fn opt_str(o: Option<String>) -> Option<Seq<char>> {
    match o {
        Some(s) => Some(s@),
        None => None,
    }
}

/// The shared objects named by the NEEDED lines of an inspector listing, in order.
pub open spec fn needed_entries(lines: Seq<Seq<char>>) -> Seq<Seq<char>>
    decreases lines.len(),
{
    if lines.len() == 0 {
        Seq::empty()
    } else if contains_str(lines.last(), "(NEEDED)"@) {
        needed_entries(lines.drop_last()).push(bracket_value(lines.last()))
    } else {
        needed_entries(lines.drop_last())
    }
}

/// The value of the last SONAME line of an inspector listing.
pub open spec fn soname_entry(lines: Seq<Seq<char>>) -> Option<Seq<char>>
    decreases lines.len(),
{
    if lines.len() == 0 {
        None
    } else if !contains_str(lines.last(), "(NEEDED)"@) && contains_str(
        lines.last(),
        "(SONAME)"@,
    ) {
        Some(bracket_value(lines.last()))
    } else {
        soname_entry(lines.drop_last())
    }
}

/// Whether a path is worth inspecting: headers, data, configuration, pkg-config
/// metadata and gconv modules are not.
pub open spec fn inspectable(path: Seq<char>) -> bool {
    &&& !has_prefix(path, "/usr/include/"@)
    &&& !has_prefix(path, "/usr/share/"@)
    &&& !has_prefix(path, "/etc/"@)
    &&& !has_prefix(path, "/usr/lib/pkgconfig/"@)
    &&& !has_prefix(path, "/usr/lib/gconv/"@)
}

/// A record of what a binary needs: its base name and its needed sonames as a set.
pub open spec fn dep_view(d: LibraryDependency) -> (Seq<char>, Seq<Seq<char>>) {
    (d.name@, strs(d.needed@))
}

pub open spec fn dep_views(v: Seq<LibraryDependency>) -> Seq<(Seq<char>, Seq<Seq<char>>)> {
    v.map_values(|d: LibraryDependency| dep_view(d))
}

/// Records ordered by name, then by needed sonames.
pub open spec fn record_lt(x: (Seq<char>, Seq<Seq<char>>), y: (Seq<char>, Seq<Seq<char>>)) -> bool {
    str_lt(x.0, y.0) || (x.0 == y.0 && strs_lt(x.1, y.1))
}

/// The order of records as a value, for the general facts about sorted sequences.
pub open spec fn record_order() -> spec_fn((Seq<char>, Seq<Seq<char>>), (Seq<char>, Seq<Seq<char>>)) -> bool {
    |x: (Seq<char>, Seq<Seq<char>>), y: (Seq<char>, Seq<Seq<char>>)| record_lt(x, y)
}

/// The sorted set of a sequence of names.
pub open spec fn normalized(s: Seq<Seq<char>>) -> Seq<Seq<char>> {
    choose|t: Seq<Seq<char>>| strictly_sorted(t) && t.to_set() == s.to_set()
}

/// Whether the binary-side view keeps an object: inspectable and needing something.
pub open spec fn keeps_binary(o: ElfObject) -> bool {
    inspectable(o.path@) && o.needed@.len() > 0
}

/// The records of the objects that the binary-side view keeps.
pub open spec fn binary_records(objs: Seq<ElfObject>) -> Seq<(Seq<char>, Seq<Seq<char>>)>
    decreases objs.len(),
{
    if objs.len() == 0 {
        Seq::empty()
    } else if keeps_binary(objs.last()) {
        binary_records(objs.drop_last()).push(
            (base_name(objs.last().path@), normalized(strs(objs.last().needed@))),
        )
    } else {
        binary_records(objs.drop_last())
    }
}

/// Whether the provider-side view keeps an object: an inspectable object with a SONAME.
pub open spec fn keeps_library(o: ElfObject) -> bool {
    inspectable(o.path@) && o.soname is Some
}

/// The SONAME of an object that has one.
pub open spec fn soname_of(o: ElfObject) -> Seq<char> {
    opt_str(o.soname)->0
}

/// The SONAMEs of the objects that the provider-side view keeps.
pub open spec fn library_names(objs: Seq<ElfObject>) -> Seq<Seq<char>>
    decreases objs.len(),
{
    if objs.len() == 0 {
        Seq::empty()
    } else if keeps_library(objs.last()) {
        library_names(objs.drop_last()).push(soname_of(objs.last()))
    } else {
        library_names(objs.drop_last())
    }
}

/// Reads the dynamic section of `path` from the inspector's listing, one entry per line.
pub fn read_dynamic_section(path: String, lines: &Vec<String>) -> (r: ElfObject)
    ensures
        r.path@ == path@,
        opt_str(r.soname) == soname_entry(strs(lines@)),
        strs(r.needed@) == needed_entries(strs(lines@)),
{
    let mut soname: Option<String> = None;
    let mut needed: Vec<String> = Vec::new();
    let mut i: usize = 0;
    while i < lines.len()
        invariant
            i <= lines@.len(),
            opt_str(soname) == soname_entry(strs(lines@.subrange(0, i as int))),
            strs(needed@) == needed_entries(strs(lines@.subrange(0, i as int))),
        decreases lines@.len() - i,
    {
        let line = lines[i].as_str();
        proof {
            assert(strs(lines@.subrange(0, i + 1)).drop_last() == strs(lines@.subrange(0, i as int)));
            assert(strs(lines@.subrange(0, i + 1)).last() == line@);
        }
        if contains(line, "(NEEDED)") {
            let ghost before = needed@;
            needed.push(bracket_value_of(line));
            proof {
                assert(strs(needed@) =~= strs(before).push(bracket_value(line@)));
            }
        } else if contains(line, "(SONAME)") {
            soname = Some(bracket_value_of(line));
        }
        i = i + 1;
    }
    assert(lines@.subrange(0, i as int) == lines@);
    ElfObject { path, soname, needed }
}

/// Whether a file starts with the ELF magic number, given its first bytes.
pub fn has_elf_magic(head: &Vec<u8>) -> (r: bool)
    ensures
        r == (head@.len() >= 4 && head@[0] == 0x7fu8 && head@[1] == 0x45u8 && head@[2] == 0x4cu8
            && head@[3] == 0x46u8),
{
    head.len() >= 4 && head[0] == 0x7fu8 && head[1] == 0x45u8 && head[2] == 0x4cu8 && head[3] == 0x46u8
}

/// Whether a path is worth inspecting.
pub fn is_inspectable(path: &str) -> (r: bool)
    ensures
        r == inspectable(path@),
{
    !(starts_with(path, "/usr/include/") || starts_with(path, "/usr/share/") || starts_with(
        path,
        "/etc/",
    ) || starts_with(path, "/usr/lib/pkgconfig/") || starts_with(path, "/usr/lib/gconv/"))
}

pub proof fn lemma_record_lt_strict_order()
    ensures
        strict_order(record_order()),
{
    assert forall|x: (Seq<char>, Seq<Seq<char>>)| !record_lt(x, x) by {
        lemma_str_lt_irreflexive(x.0);
        lemma_strs_lt_irreflexive(x.1);
    }
    assert forall|x: (Seq<char>, Seq<Seq<char>>), y: (Seq<char>, Seq<Seq<char>>), z: (
        Seq<char>,
        Seq<Seq<char>>,
    )| record_lt(x, y) && record_lt(y, z) implies record_lt(x, z) by {
        if str_lt(x.0, y.0) && str_lt(y.0, z.0) {
            lemma_str_lt_transitive(x.0, y.0, z.0);
        } else if x.0 == y.0 && y.0 == z.0 {
            lemma_strs_lt_transitive(x.1, y.1, z.1);
        }
    }
}

/// Compares two records by name, then by needed sonames.
fn compare_record(a: &LibraryDependency, b: &LibraryDependency) -> (r: i8)
    ensures
        r < 0 <==> record_lt(dep_view(*a), dep_view(*b)),
        r == 0 <==> dep_view(*a) == dep_view(*b),
        r > 0 <==> record_lt(dep_view(*b), dep_view(*a)),
{
    proof {
        lemma_str_lt_irreflexive(a.name@);
        lemma_str_lt_irreflexive(b.name@);
        lemma_str_lt_total(a.name@, b.name@);
        if str_lt(a.name@, b.name@) && str_lt(b.name@, a.name@) {
            lemma_str_lt_transitive(a.name@, b.name@, a.name@);
        }
    }
    let c = compare_str(a.name.as_str(), b.name.as_str());
    if c != 0 {
        return c;
    }
    compare_strs(&a.needed, &b.needed)
}

/// Adds a record to a set of records sorted strictly by `record_lt`.
fn insert_record(v: &mut Vec<LibraryDependency>, d: LibraryDependency)
    requires
        sorted_by(dep_views(old(v)@), record_order()),
    ensures
        sorted_by(dep_views(final(v)@), record_order()),
        dep_views(final(v)@).to_set() == dep_views(old(v)@).to_set().insert(dep_view(d)),
{
    proof {
        lemma_record_lt_strict_order();
    }
    let ghost lt = record_order();
    let ghost dv = dep_view(d);
    let mut i: usize = 0;
    let mut stop = false;
    while i < v.len() && !stop
        invariant
            i <= v@.len(),
            sorted_by(dep_views(v@), lt),
            strict_order(lt),
            lt == record_order(),
            dv == dep_view(d),
            forall|k: int| 0 <= k < i ==> record_lt(#[trigger] dep_views(v@)[k], dv),
            stop ==> i < v@.len() && record_lt(dv, dep_views(v@)[i as int]),
        decreases v@.len() - i + (if stop { 0int } else { 1int }),
    {
        let c = compare_record(&v[i], &d);
        if c == 0 {
            proof {
                assert(dep_views(v@)[i as int] == dv);
                assert(dep_views(v@).to_set().contains(dv));
                assert(dep_views(v@).to_set() =~= dep_views(v@).to_set().insert(dv));
            }
            return;
        }
        if c > 0 {
            stop = true;
        } else {
            i = i + 1;
        }
    }
    let ghost o = dep_views(v@);
    proof {
        assert forall|k: int| i <= k < o.len() implies record_lt(dv, #[trigger] o[k]) by {
            assert(lt(dv, o[i as int]));
            if k > i {
                assert(lt(o[i as int], o[k]));
                assert(lt(dv, o[k]));
            }
        }
        lemma_insert_sorted_by(o, i as int, dv, lt);
    }
    v.insert(i, d);
    assert(dep_views(v@) =~= o.insert(i as int, dv));
}

/// The binaries of a package that need shared objects, as records sorted by name
/// and then by needed sonames, without duplicates.
pub fn library_deps_of(objs: &Vec<ElfObject>) -> (r: Vec<LibraryDependency>)
    ensures
        sorted_by(dep_views(r@), record_order()),
        dep_views(r@).to_set() == binary_records(objs@).to_set(),
{
    let mut r: Vec<LibraryDependency> = Vec::new();
    let mut i: usize = 0;
    while i < objs.len()
        invariant
            i <= objs@.len(),
            sorted_by(dep_views(r@), record_order()),
            dep_views(r@).to_set() == binary_records(objs@.subrange(0, i as int)).to_set(),
        decreases objs@.len() - i,
    {
        let o = &objs[i];
        proof {
            assert(objs@.subrange(0, i + 1).drop_last() == objs@.subrange(0, i as int));
        }
        if is_inspectable(o.path.as_str()) && o.needed.len() > 0 {
            let needed = sorted_set(&o.needed);
            let d = LibraryDependency { name: base_name_of(o.path.as_str()), needed };
            proof {
                let t = strs(needed@);
                assert(strictly_sorted(t) && t.to_set() == strs(o.needed@).to_set());
                let c = normalized(strs(o.needed@));
                lemma_str_lt_strict_order();
                lemma_sorted_unique(c, t, |x: Seq<char>, y: Seq<char>| str_lt(x, y));
                binary_records(objs@.subrange(0, i as int)).lemma_push_to_set_commute(dep_view(d));
            }
            insert_record(&mut r, d);
        }
        i = i + 1;
    }
    assert(objs@.subrange(0, i as int) == objs@);
    r
}

/// The SONAMEs that the objects of a package provide, sorted and without duplicates.
pub fn libraries_of(objs: &Vec<ElfObject>) -> (r: Vec<String>)
    ensures
        strictly_sorted(strs(r@)),
        strs(r@).to_set() == library_names(objs@).to_set(),
{
    let mut r: Vec<String> = Vec::new();
    let mut i: usize = 0;
    while i < objs.len()
        invariant
            i <= objs@.len(),
            strictly_sorted(strs(r@)),
            strs(r@).to_set() == library_names(objs@.subrange(0, i as int)).to_set(),
        decreases objs@.len() - i,
    {
        let o = &objs[i];
        proof {
            assert(objs@.subrange(0, i + 1).drop_last() == objs@.subrange(0, i as int));
        }
        if is_inspectable(o.path.as_str()) {
            match &o.soname {
                Some(sn) => {
                    let name = sn.clone();
                    proof {
                        library_names(objs@.subrange(0, i as int)).lemma_push_to_set_commute(name@);
                    }
                    insert_sorted(&mut r, name);
                },
                None => {},
            }
        }
        i = i + 1;
    }
    assert(objs@.subrange(0, i as int) == objs@);
    r
}

/// The record that the binary-side view makes of an object.
pub open spec fn binary_record(o: ElfObject) -> (Seq<char>, Seq<Seq<char>>) {
    (base_name(o.path@), normalized(strs(o.needed@)))
}

proof fn lemma_binary_records_members(objs: Seq<ElfObject>, x: (Seq<char>, Seq<Seq<char>>))
    ensures
        binary_records(objs).to_set().contains(x) <==> exists|o: ElfObject|
            objs.contains(o) && keeps_binary(o) && x == binary_record(o),
    decreases objs.len(),
{
    if objs.len() > 0 {
        let p = objs.drop_last();
        lemma_binary_records_members(p, x);
        if keeps_binary(objs.last()) {
            assert(binary_record(objs.last()) == (base_name(objs.last().path@), normalized(strs(objs.last().needed@))));
            binary_records(p).lemma_push_to_set_commute(binary_record(objs.last()));
        }
        if binary_records(objs).to_set().contains(x) {
            if binary_records(p).to_set().contains(x) {
                let o = choose|o: ElfObject| p.contains(o) && keeps_binary(o) && x == binary_record(o);
                let k = choose|k: int| 0 <= k < p.len() && p[k] == o;
                assert(objs[k] == o);
            } else {
                assert(objs[objs.len() - 1] == objs.last());
            }
        }
        if exists|o: ElfObject| objs.contains(o) && keeps_binary(o) && x == binary_record(o) {
            let o = choose|o: ElfObject| objs.contains(o) && keeps_binary(o) && x == binary_record(o);
            let k = choose|k: int| 0 <= k < objs.len() && objs[k] == o;
            if k < objs.len() - 1 {
                assert(p[k] == o);
            }
        }
    }
}

proof fn lemma_library_names_members(objs: Seq<ElfObject>, x: Seq<char>)
    ensures
        library_names(objs).to_set().contains(x) <==> exists|o: ElfObject|
            objs.contains(o) && keeps_library(o) && x == soname_of(o),
    decreases objs.len(),
{
    if objs.len() > 0 {
        let p = objs.drop_last();
        lemma_library_names_members(p, x);
        if keeps_library(objs.last()) {
            library_names(p).lemma_push_to_set_commute(soname_of(objs.last()));
        }
        if library_names(objs).to_set().contains(x) {
            if library_names(p).to_set().contains(x) {
                let o = choose|o: ElfObject| p.contains(o) && keeps_library(o) && x == soname_of(o);
                let k = choose|k: int| 0 <= k < p.len() && p[k] == o;
                assert(objs[k] == o);
            } else {
                assert(objs[objs.len() - 1] == objs.last());
            }
        }
        if exists|o: ElfObject| objs.contains(o) && keeps_library(o) && x == soname_of(o) {
            let o = choose|o: ElfObject| objs.contains(o) && keeps_library(o) && x == soname_of(o);
            let k = choose|k: int| 0 <= k < objs.len() && objs[k] == o;
            if k < objs.len() - 1 {
                assert(p[k] == o);
            }
        }
    }
}

/// The binary-side view is determined by the objects a package holds: two results of
/// `library_deps_of` on listings of the same objects, in whatever order, are equal.
pub proof fn lemma_library_deps_deterministic(
    objs1: Seq<ElfObject>,
    objs2: Seq<ElfObject>,
    r1: Seq<LibraryDependency>,
    r2: Seq<LibraryDependency>,
)
    requires
        objs1.to_set() == objs2.to_set(),
        sorted_by(dep_views(r1), record_order()),
        dep_views(r1).to_set() == binary_records(objs1).to_set(),
        sorted_by(dep_views(r2), record_order()),
        dep_views(r2).to_set() == binary_records(objs2).to_set(),
    ensures
        dep_views(r1) == dep_views(r2),
{
    assert forall|x| binary_records(objs1).to_set().contains(x) <==> binary_records(
        objs2,
    ).to_set().contains(x) by {
        lemma_binary_records_members(objs1, x);
        lemma_binary_records_members(objs2, x);
        assert(forall|o: ElfObject| objs1.contains(o) <==> objs1.to_set().contains(o));
        assert(forall|o: ElfObject| objs2.contains(o) <==> objs2.to_set().contains(o));
    }
    assert(binary_records(objs1).to_set() =~= binary_records(objs2).to_set());
    lemma_record_lt_strict_order();
    lemma_sorted_unique(dep_views(r1), dep_views(r2), record_order());
}

/// The provider-side view is determined by the objects a package holds: two results of
/// `libraries_of` on listings of the same objects, in whatever order, are equal.
pub proof fn lemma_libraries_deterministic(
    objs1: Seq<ElfObject>,
    objs2: Seq<ElfObject>,
    r1: Seq<String>,
    r2: Seq<String>,
)
    requires
        objs1.to_set() == objs2.to_set(),
        strictly_sorted(strs(r1)),
        strs(r1).to_set() == library_names(objs1).to_set(),
        strictly_sorted(strs(r2)),
        strs(r2).to_set() == library_names(objs2).to_set(),
    ensures
        strs(r1) == strs(r2),
{
    assert forall|x| library_names(objs1).to_set().contains(x) <==> library_names(
        objs2,
    ).to_set().contains(x) by {
        lemma_library_names_members(objs1, x);
        lemma_library_names_members(objs2, x);
        assert(forall|o: ElfObject| objs1.contains(o) <==> objs1.to_set().contains(o));
        assert(forall|o: ElfObject| objs2.contains(o) <==> objs2.to_set().contains(o));
    }
    assert(library_names(objs1).to_set() =~= library_names(objs2).to_set());
    lemma_str_lt_strict_order();
    lemma_sorted_unique(strs(r1), strs(r2), |x: Seq<char>, y: Seq<char>| str_lt(x, y));
}

} // verus!
