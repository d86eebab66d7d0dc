use dickens::check::FileDependencies;
use dickens::closure::ClosureBuilder;
use dickens::graph::{render_closure_graph, render_sodep_graph};
use dickens::names::escape_name_for_graphviz;

fn s(x: &str) -> String {
    x.to_string()
}

fn names(v: &[&str]) -> Vec<String> {
    v.iter().map(|x| s(x)).collect()
}

#[test]
fn escapes_dash_and_plus() {
    let id = escape_name_for_graphviz("foo-bar+baz");
    assert_eq!(id, "foo_dash_bar_plus_baz");
    assert!(!id.contains('-') && !id.contains('+'));
    assert_eq!(escape_name_for_graphviz(""), "");
    assert_eq!(escape_name_for_graphviz("gcc-c++"), "gcc_dash_c_plus__plus_");
}

#[test]
fn closure_graph_keeps_label_unescaped() {
    let mut b = ClosureBuilder::new(names(&["foo-bar+baz"]));
    b.record(s("foo-bar+baz"), names(&["libc"]));
    b.record(s("libc"), vec![]);
    let g = render_closure_graph(&b);
    assert_eq!(
        g,
        "digraph G {\n  foo_dash_bar_plus_baz [label=\"foo-bar+baz\"];\n  foo_dash_bar_plus_baz -> libc;\n  libc [label=\"libc\"];\n}\n"
    );
}

#[test]
fn sodep_graph_layout() {
    let files = vec![
        FileDependencies { file: s("prog"), packages: names(&["glibc", "lib-a"]) },
        FileDependencies { file: s("helper"), packages: names(&["glibc"]) },
        FileDependencies { file: s("tool"), packages: names(&["b"]) },
    ];
    let g = render_sodep_graph(
        "pkg",
        &names(&["lib-a", "b", "glibc"]),
        &names(&["glibc", "gcc-runtime", "libxcrypt"]),
        &files,
    );
    let expected = "digraph G {\n  lib_dash_a [label = \"lib-a\"];\n  b [label = \"b\"];\n  subgraph cluster_0 {\n    label = \"pkg\";\n    file_0 [label=\"prog\"];\n    file_2 [label=\"tool\"];\n  }\n  file_0 -> lib_dash_a;\n  file_2 -> b;\n}\n";
    assert_eq!(g, expected);
}

#[test]
fn file_numbers_past_nine() {
    let mut files = vec![];
    for i in 0..12 {
        files.push(FileDependencies { file: format!("f{}", i), packages: names(&["p"]) });
    }
    let g = render_sodep_graph("t", &names(&["p"]), &vec![], &files);
    assert!(g.contains("    file_11 [label=\"f11\"];\n"));
    assert!(g.contains("  file_10 -> p;\n"));
}
