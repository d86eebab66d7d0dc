use dickens::closure::{parse_depends, ClosureBuilder};
use dickens::cycles::elementary_cycles;

fn s(x: &str) -> String {
    x.to_string()
}

fn names(v: &[&str]) -> Vec<String> {
    v.iter().map(|x| s(x)).collect()
}

fn build(roots: &[&str], graph: &[(&str, &[&str])]) -> (ClosureBuilder, Vec<String>) {
    let mut b = ClosureBuilder::new(names(roots));
    let mut visited = vec![];
    while let Some(name) = b.next_unknown() {
        let deps = graph.iter().find(|(n, _)| *n == name).map(|(_, d)| names(d)).unwrap_or_default();
        visited.push(name.clone());
        assert!(b.record(name, deps));
    }
    (b, visited)
}

fn cycles_of(b: &ClosureBuilder) -> Vec<Vec<String>> {
    let edges = b.dependency_edges();
    elementary_cycles(&edges).iter().map(|c| b.cycle_names(c)).collect()
}

#[test]
fn parses_declared_dependencies() {
    let lines = names(&[
        "foo",
        "  Depends: libc6 (>= 2.34)",
        "  Depends: bar",
        "  Recommends: baz",
        " |Depends: alt",
        "  Depends:",
    ]);
    assert_eq!(parse_depends(&lines), names(&["libc6", "bar"]));
}

#[test]
fn closure_visits_each_package_once() {
    let graph: &[(&str, &[&str])] = &[("a", &["b", "c"]), ("b", &["c", "d"]), ("c", &["d"]), ("d", &[])];
    let (b, visited) = build(&["a", "c"], graph);
    let mut sorted = visited.clone();
    sorted.sort();
    sorted.dedup();
    assert_eq!(sorted.len(), visited.len());
    assert_eq!(b.packages().len(), 4);
    assert!(b.is_known("d"));
    assert!(!b.is_known("e"));
    assert_eq!(cycles_of(&b).len(), 0);
}

#[test]
fn recording_a_known_package_changes_nothing() {
    let mut b = ClosureBuilder::new(names(&["a"]));
    assert!(b.record(s("a"), names(&["b"])));
    assert!(!b.record(s("a"), names(&["c"])));
    assert_eq!(b.packages().len(), 1);
    assert_eq!(b.packages()[0].depends, names(&["b"]));
    assert_eq!(b.next_unknown(), Some(s("b")));
}

#[test]
fn triangle_has_one_cycle() {
    let graph: &[(&str, &[&str])] = &[("A", &["B"]), ("B", &["C"]), ("C", &["A"])];
    let (b, _) = build(&["A"], graph);
    let cycles = cycles_of(&b);
    assert_eq!(cycles.len(), 1);
    let c = &cycles[0];
    assert_eq!(c.len(), 4);
    assert_eq!(c[0], c[3]);
    let rotations = [names(&["A", "B", "C", "A"]), names(&["B", "C", "A", "B"]), names(&["C", "A", "B", "C"])];
    assert!(rotations.contains(c));
}

#[test]
fn acyclic_graph_has_no_cycle() {
    let graph: &[(&str, &[&str])] = &[("A", &["B", "C"]), ("B", &["C"]), ("C", &[])];
    let (b, _) = build(&["A"], graph);
    assert!(cycles_of(&b).is_empty());
}

#[test]
fn repeated_dependency_gives_one_edge_and_one_cycle() {
    let graph: &[(&str, &[&str])] = &[("A", &["B", "B"]), ("B", &["A"])];
    let (b, _) = build(&["A"], graph);
    assert_eq!(b.dependency_edges().len(), 2);
    assert_eq!(cycles_of(&b).len(), 1);
}

#[test]
fn self_dependency_is_a_cycle() {
    let graph: &[(&str, &[&str])] = &[("A", &["A", "B"]), ("B", &[])];
    let (b, _) = build(&["A"], graph);
    assert_eq!(cycles_of(&b), vec![names(&["A", "A"])]);
}

#[test]
fn two_cycles_sharing_a_node() {
    let graph: &[(&str, &[&str])] = &[("A", &["B", "C"]), ("B", &["A"]), ("C", &["A"])];
    let (b, _) = build(&["A"], graph);
    assert_eq!(cycles_of(&b).len(), 2);
}

#[test]
fn edges_follow_discovery_order() {
    let mut b = ClosureBuilder::new(names(&["x"]));
    assert_eq!(b.next_unknown(), Some(s("x")));
    b.record(s("x"), names(&["y"]));
    assert_eq!(b.next_unknown(), Some(s("y")));
    b.record(s("y"), names(&[]));
    assert_eq!(b.next_unknown(), None);
    assert_eq!(b.dependency_edges(), vec![(0u32, 1u32)]);
    assert_eq!(b.index_of("y"), Some(1));
}

#[test]
fn next_unknown_takes_last_pending_and_drops_known() {
    let mut b = ClosureBuilder::new(names(&["a", "b"]));
    assert_eq!(b.next_unknown(), Some(s("b")));
    b.record(s("b"), names(&["a"]));
    assert_eq!(b.next_unknown(), Some(s("a")));
    b.record(s("a"), names(&[]));
    assert_eq!(b.next_unknown(), None);
    assert_eq!(b.packages().len(), 2);
}

#[test]
fn diamond_is_queried_once_per_name() {
    let graph: &[(&str, &[&str])] = &[("A", &["B", "C"]), ("B", &["D"]), ("C", &["D"]), ("D", &[])];
    let (b, visited) = build(&["A"], graph);
    let mut sorted = visited.clone();
    sorted.sort();
    assert_eq!(sorted, names(&["A", "B", "C", "D"]));
    assert_eq!(b.dependency_edges().len(), 4);
}
