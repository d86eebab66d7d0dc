//! Rendering dependency graphs in the graph description language.
use vstd::prelude::*;
use crate::audit::has_name;
use crate::check::FileDependencies;
use crate::closure::{ClosureBuilder, Package, package_view};
use crate::names::{escape_name_for_graphviz, escaped};
use crate::order::strs;

verus! {

/// The decimal digits of `n`.
pub open spec fn decimal(n: nat) -> Seq<char>
    decreases n,
{
    if n < 10 {
        seq!["0123456789"@[n as int]]
    } else {
        decimal(n / 10) + seq!["0123456789"@[(n % 10) as int]]
    }
}

pub(crate) fn append_decimal(r: &mut String, n: usize)
    ensures
        final(r)@ == old(r)@ + decimal(n as nat),
    decreases n,
{
    if n >= 10 {
        append_decimal(r, n / 10);
    }
    let digits = "0123456789";
    proof {
        reveal_strlit("0123456789");
    }
    let d = n % 10;
    let ghost before = r@;
    r.append(digits.substring_char(d, d + 1));
    proof {
        assert(digits@.subrange(d as int, d + 1) == seq![digits@[d as int]]);
        if n < 10 {
            assert(d == n);
        }
    }
}

/// The node of a declared dependency.
pub open spec fn package_node(name: Seq<char>) -> Seq<char> {
    "  "@ + escaped(name) + " [label = \""@ + name + "\"];\n"@
}

/// The nodes of the declared dependencies that are not builtin.
pub open spec fn package_nodes(depends: Seq<Seq<char>>, builtins: Seq<Seq<char>>) -> Seq<char>
    decreases depends.len(),
{
    if depends.len() == 0 {
        Seq::empty()
    } else if builtins.contains(depends.last()) {
        package_nodes(depends.drop_last(), builtins)
    } else {
        package_nodes(depends.drop_last(), builtins) + package_node(depends.last())
    }
}

/// Whether some package of `pkgs` is not builtin.
pub open spec fn has_outside(pkgs: Seq<Seq<char>>, builtins: Seq<Seq<char>>) -> bool {
    exists|k: int| 0 <= k < pkgs.len() && !builtins.contains(pkgs[k])
}

/// The node of file number `i` of the target package.
pub open spec fn file_node(i: nat, name: Seq<char>) -> Seq<char> {
    "    file_"@ + decimal(i) + " [label=\""@ + name + "\"];\n"@
}

/// The nodes of the files that depend on some package that is not builtin.
pub open spec fn file_nodes(files: Seq<(Seq<char>, Seq<Seq<char>>)>, builtins: Seq<Seq<char>>) -> Seq<
    char,
>
    decreases files.len(),
{
    if files.len() == 0 {
        Seq::empty()
    } else if has_outside(files.last().1, builtins) {
        file_nodes(files.drop_last(), builtins) + file_node(
            (files.len() - 1) as nat,
            files.last().0,
        )
    } else {
        file_nodes(files.drop_last(), builtins)
    }
}

/// The edges from file number `i` to the packages of `pkgs` that are not builtin.
pub open spec fn file_edges(i: nat, pkgs: Seq<Seq<char>>, builtins: Seq<Seq<char>>) -> Seq<char>
    decreases pkgs.len(),
{
    if pkgs.len() == 0 {
        Seq::empty()
    } else if builtins.contains(pkgs.last()) {
        file_edges(i, pkgs.drop_last(), builtins)
    } else {
        file_edges(i, pkgs.drop_last(), builtins) + "  file_"@ + decimal(i) + " -> "@ + escaped(
            pkgs.last(),
        ) + ";\n"@
    }
}

/// The edges of all files.
pub open spec fn all_file_edges(
    files: Seq<(Seq<char>, Seq<Seq<char>>)>,
    builtins: Seq<Seq<char>>,
) -> Seq<char>
    decreases files.len(),
{
    if files.len() == 0 {
        Seq::empty()
    } else {
        all_file_edges(files.drop_last(), builtins) + file_edges(
            (files.len() - 1) as nat,
            files.last().1,
            builtins,
        )
    }
}

pub open spec fn file_views(files: Seq<FileDependencies>) -> Seq<(Seq<char>, Seq<Seq<char>>)> {
    files.map_values(|f: FileDependencies| (f.file@, strs(f.packages@)))
}

/// The graph of a soname audit: declared dependencies, the files of the target in a
/// cluster, and an edge from each file to each package it depends on; builtin
/// packages are left out.
pub open spec fn sodep_graph(
    target: Seq<char>,
    depends: Seq<Seq<char>>,
    builtins: Seq<Seq<char>>,
    files: Seq<(Seq<char>, Seq<Seq<char>>)>,
) -> Seq<char> {
    "digraph G {\n"@ + package_nodes(depends, builtins) + "  subgraph cluster_0 {\n"@
        + "    label = \""@ + target + "\";\n"@ + file_nodes(files, builtins) + "  }\n"@
        + all_file_edges(files, builtins) + "}\n"@
}

fn any_outside(pkgs: &Vec<String>, builtins: &Vec<String>) -> (r: bool)
    ensures
        r == has_outside(strs(pkgs@), strs(builtins@)),
{
    let mut k: usize = 0;
    while k < pkgs.len()
        invariant
            k <= pkgs@.len(),
            forall|j: int| 0 <= j < k ==> strs(builtins@).contains(#[trigger] strs(pkgs@)[j]),
        decreases pkgs@.len() - k,
    {
        if !has_name(builtins, pkgs[k].as_str()) {
            assert(!strs(builtins@).contains(strs(pkgs@)[k as int]));
            return true;
        }
        k = k + 1;
    }
    false
}

fn append_file_edges(r: &mut String, i: usize, pkgs: &Vec<String>, builtins: &Vec<String>)
    ensures
        final(r)@ == old(r)@ + file_edges(i as nat, strs(pkgs@), strs(builtins@)),
{
    let mut k: usize = 0;
    let ghost start = r@;
    assert(strs(pkgs@).take(0) =~= Seq::<Seq<char>>::empty());
    assert(r@ =~= start + Seq::<char>::empty());
    while k < pkgs.len()
        invariant
            k <= pkgs@.len(),
            r@ == start + file_edges(i as nat, strs(pkgs@).take(k as int), strs(builtins@)),
        decreases pkgs@.len() - k,
    {
        let ghost cur = strs(pkgs@).take(k + 1);
        assert(cur.drop_last() == strs(pkgs@).take(k as int));
        assert(cur.last() == pkgs@[k as int]@);
        if !has_name(builtins, pkgs[k].as_str()) {
            r.append("  file_");
            append_decimal(r, i);
            r.append(" -> ");
            let e = escape_name_for_graphviz(pkgs[k].as_str());
            r.append(e.as_str());
            r.append(";\n");
            assert(r@ =~= start + file_edges(i as nat, cur, strs(builtins@)));
        }
        k = k + 1;
    }
    assert(strs(pkgs@).take(k as int) == strs(pkgs@));
}

/// Renders the graph of a soname audit.
pub fn render_sodep_graph(
    target: &str,
    depends: &Vec<String>,
    builtins: &Vec<String>,
    files: &Vec<FileDependencies>,
) -> (r: String)
    ensures
        r@ == sodep_graph(target@, strs(depends@), strs(builtins@), file_views(files@)),
{
    let ghost b = strs(builtins@);
    let ghost fv = file_views(files@);
    let mut r = String::new();
    r.append("digraph G {\n");
    let ghost h0 = r@;
    let mut i: usize = 0;
    assert(strs(depends@).take(0) =~= Seq::<Seq<char>>::empty());
    assert(r@ =~= h0 + Seq::<char>::empty());
    while i < depends.len()
        invariant
            i <= depends@.len(),
            b == strs(builtins@),
            r@ == h0 + package_nodes(strs(depends@).take(i as int), b),
        decreases depends@.len() - i,
    {
        let ghost cur = strs(depends@).take(i + 1);
        assert(cur.drop_last() == strs(depends@).take(i as int));
        assert(cur.last() == depends@[i as int]@);
        if !has_name(builtins, depends[i].as_str()) {
            r.append("  ");
            let e = escape_name_for_graphviz(depends[i].as_str());
            r.append(e.as_str());
            r.append(" [label = \"");
            r.append(depends[i].as_str());
            r.append("\"];\n");
            assert(r@ =~= h0 + package_nodes(cur, b));
        }
        i = i + 1;
    }
    assert(strs(depends@).take(i as int) == strs(depends@));
    r.append("  subgraph cluster_0 {\n");
    r.append("    label = \"");
    r.append(target);
    r.append("\";\n");
    let ghost h1 = r@;
    let mut i: usize = 0;
    assert(fv.take(0) =~= Seq::<(Seq<char>, Seq<Seq<char>>)>::empty());
    assert(r@ =~= h1 + Seq::<char>::empty());
    while i < files.len()
        invariant
            i <= files@.len(),
            b == strs(builtins@),
            fv == file_views(files@),
            r@ == h1 + file_nodes(fv.take(i as int), b),
        decreases files@.len() - i,
    {
        let ghost cur = fv.take(i + 1);
        assert(cur.drop_last() == fv.take(i as int));
        assert(cur.last() == (files@[i as int].file@, strs(files@[i as int].packages@)));
        if any_outside(&files[i].packages, builtins) {
            r.append("    file_");
            append_decimal(&mut r, i);
            r.append(" [label=\"");
            r.append(files[i].file.as_str());
            r.append("\"];\n");
            assert(r@ =~= h1 + file_nodes(cur, b));
        }
        i = i + 1;
    }
    assert(fv.take(i as int) == fv);
    r.append("  }\n");
    let ghost h2 = r@;
    let mut i: usize = 0;
    assert(r@ =~= h2 + Seq::<char>::empty());
    while i < files.len()
        invariant
            i <= files@.len(),
            b == strs(builtins@),
            fv == file_views(files@),
            r@ == h2 + all_file_edges(fv.take(i as int), b),
        decreases files@.len() - i,
    {
        let ghost cur = fv.take(i + 1);
        assert(cur.drop_last() == fv.take(i as int));
        assert(cur.last() == (files@[i as int].file@, strs(files@[i as int].packages@)));
        append_file_edges(&mut r, i, &files[i].packages, builtins);
        assert(r@ =~= h2 + all_file_edges(cur, b));
        i = i + 1;
    }
    r.append("}\n");
    assert(r@ =~= sodep_graph(target@, strs(depends@), b, fv));
    r
}

/// The edges from a package to each package it declares.
pub open spec fn depend_edges(name: Seq<char>, deps: Seq<Seq<char>>) -> Seq<char>
    decreases deps.len(),
{
    if deps.len() == 0 {
        Seq::empty()
    } else {
        depend_edges(name, deps.drop_last()) + "  "@ + escaped(name) + " -> "@ + escaped(deps.last())
            + ";\n"@
    }
}

/// The node of each package with its edges.
pub open spec fn closure_lines(known: Seq<(Seq<char>, Seq<Seq<char>>)>) -> Seq<char>
    decreases known.len(),
{
    if known.len() == 0 {
        Seq::empty()
    } else {
        let (name, deps) = known.last();
        closure_lines(known.drop_last()) + "  "@ + escaped(name) + " [label=\""@ + name
            + "\"];\n"@ + depend_edges(name, deps)
    }
}

/// The graph of a dependency closure: a node per package, an edge per declared
/// dependency.
pub open spec fn closure_graph(known: Seq<(Seq<char>, Seq<Seq<char>>)>) -> Seq<char> {
    "digraph G {\n"@ + closure_lines(known) + "}\n"@
}

fn append_package(r: &mut String, p: &Package)
    ensures
        final(r)@ == old(r)@ + "  "@ + escaped(p.name@) + " [label=\""@ + p.name@ + "\"];\n"@
            + depend_edges(p.name@, strs(p.depends@)),
{
    let e = escape_name_for_graphviz(p.name.as_str());
    r.append("  ");
    r.append(e.as_str());
    r.append(" [label=\"");
    r.append(p.name.as_str());
    r.append("\"];\n");
    let ghost h = r@;
    let mut k: usize = 0;
    assert(strs(p.depends@).take(0) =~= Seq::<Seq<char>>::empty());
    assert(r@ =~= h + Seq::<char>::empty());
    while k < p.depends.len()
        invariant
            k <= p.depends@.len(),
            e@ == escaped(p.name@),
            r@ == h + depend_edges(p.name@, strs(p.depends@).take(k as int)),
        decreases p.depends@.len() - k,
    {
        let ghost cur = strs(p.depends@).take(k + 1);
        assert(cur.drop_last() == strs(p.depends@).take(k as int));
        assert(cur.last() == p.depends@[k as int]@);
        r.append("  ");
        r.append(e.as_str());
        r.append(" -> ");
        let d = escape_name_for_graphviz(p.depends[k].as_str());
        r.append(d.as_str());
        r.append(";\n");
        assert(r@ =~= h + depend_edges(p.name@, cur));
        k = k + 1;
    }
    assert(strs(p.depends@).take(k as int) == strs(p.depends@));
}

/// Renders the graph of a dependency closure.
pub fn render_closure_graph(b: &ClosureBuilder) -> (r: String)
    ensures
        r@ == closure_graph(b@.0),
{
    let pkgs = b.packages();
    let ghost kn = b@.0;
    let mut r = String::new();
    r.append("digraph G {\n");
    let ghost h = r@;
    let mut i: usize = 0;
    assert(kn.take(0) =~= Seq::<(Seq<char>, Seq<Seq<char>>)>::empty());
    assert(r@ =~= h + Seq::<char>::empty());
    while i < pkgs.len()
        invariant
            i <= pkgs@.len() == kn.len(),
            pkgs@.map_values(|p: Package| package_view(p)) == kn,
            r@ == h + closure_lines(kn.take(i as int)),
        decreases pkgs@.len() - i,
    {
        let ghost cur = kn.take(i + 1);
        assert(cur.drop_last() == kn.take(i as int));
        assert(cur.last() == package_view(pkgs@[i as int]));
        append_package(&mut r, &pkgs[i]);
        assert(r@ =~= h + closure_lines(cur));
        i = i + 1;
    }
    assert(kn.take(i as int) == kn);
    r.append("}\n");
    assert(r@ =~= closure_graph(kn));
    r
}

} // verus!
