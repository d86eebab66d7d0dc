use dickens::audit::{audit_sonames, unused_dependencies, with_builtins};
use dickens::check::check_binaries;
use dickens::elf::LibraryDependency;
use dickens::registry::{build_registry, PackageLibraries, SonameRegistry};

fn s(x: &str) -> String {
    x.to_string()
}

fn names(v: &[&str]) -> Vec<String> {
    v.iter().map(|x| s(x)).collect()
}

fn pkg(name: &str, libs: &[&str]) -> PackageLibraries {
    PackageLibraries { package: s(name), libraries: names(libs) }
}

fn bin(name: &str, needed: &[&str]) -> LibraryDependency {
    LibraryDependency { name: s(name), needed: names(needed) }
}

#[test]
fn registry_insert_returns_previous_owner() {
    let mut r = SonameRegistry::new();
    assert_eq!(r.insert(s("libx.so"), s("a")), None);
    assert_eq!(r.insert(s("liby.so"), s("b")), None);
    assert_eq!(r.insert(s("libx.so"), s("c")), Some(s("a")));
    assert_eq!(r.owner("libx.so"), Some(s("c")));
    assert_eq!(r.owner("liby.so"), Some(s("b")));
    assert_eq!(r.owner("libz.so"), None);
}

#[test]
fn conflicting_soname_warns_once_and_last_wins() {
    let deps = vec![pkg("A", &["libdup.so"]), pkg("C", &["libdup.so", "libc_only.so"])];
    let target = pkg("T", &[]);
    let (reg, conflicts) = build_registry(&deps, &target);
    assert_eq!(conflicts.len(), 1);
    assert_eq!(conflicts[0].soname, "libdup.so");
    assert_eq!(conflicts[0].first_owner, "A");
    assert_eq!(conflicts[0].second_owner, "C");
    assert_eq!(reg.owner("libdup.so"), Some(s("C")));
}

#[test]
fn conflict_names_follow_insertion_order() {
    let deps = vec![pkg("C", &["libdup.so"]), pkg("A", &["libdup.so"])];
    let (reg, conflicts) = build_registry(&deps, &pkg("T", &[]));
    assert_eq!(conflicts[0].first_owner, "C");
    assert_eq!(conflicts[0].second_owner, "A");
    assert_eq!(reg.owner("libdup.so"), Some(s("A")));
}

#[test]
fn same_owner_twice_is_no_conflict() {
    let deps = vec![pkg("A", &["libx.so"]), pkg("A", &["libx.so"])];
    let (_, conflicts) = build_registry(&deps, &pkg("T", &[]));
    assert!(conflicts.is_empty());
}

#[test]
fn target_supersedes_in_any_dependency_order() {
    let t = pkg("T", &["libshared.so"]);
    let d1 = vec![pkg("A", &["libshared.so", "liba.so"]), pkg("B", &["libb.so"])];
    let d2 = vec![pkg("B", &["libb.so"]), pkg("A", &["libshared.so", "liba.so"])];
    let (r1, c1) = build_registry(&d1, &t);
    let (r2, c2) = build_registry(&d2, &t);
    for so in ["libshared.so", "liba.so", "libb.so", "libnone.so"] {
        assert_eq!(r1.owner(so), r2.owner(so));
    }
    assert_eq!(r1.owner("libshared.so"), Some(s("T")));
    assert_eq!(c1.len(), 1);
    assert_eq!(c2.len(), 1);
    assert_eq!(c1[0].first_owner, "A");
    assert_eq!(c1[0].second_owner, "T");
}

#[test]
fn checker_reports_only_unknown_sonames() {
    let (reg, _) = build_registry(&vec![pkg("A", &["liba.so"])], &pkg("T", &["libt.so"]));
    let bins = vec![bin("prog", &["liba.so", "libt.so", "libmissing.so"]), bin("tool", &["liba.so"])];
    let report = check_binaries(&reg, "T", &bins);
    assert_eq!(report.unresolved.len(), 1);
    assert_eq!(report.unresolved[0].binary, "prog");
    assert_eq!(report.unresolved[0].soname, "libmissing.so");
    assert_eq!(report.depended, names(&["A", "T"]));
    assert_eq!(report.files.len(), 2);
    assert_eq!(report.files[0].file, "prog");
    assert_eq!(report.files[0].packages, names(&["A"]));
    assert_eq!(report.files[1].packages, names(&["A"]));
}

#[test]
fn checker_with_no_binaries_reports_nothing() {
    let (reg, _) = build_registry(&vec![], &pkg("T", &[]));
    let report = check_binaries(&reg, "T", &vec![]);
    assert!(report.depended.is_empty());
    assert!(report.unresolved.is_empty());
    assert!(report.files.is_empty());
}

#[test]
fn unused_is_declared_less_depended_less_builtins() {
    let declared = names(&["a", "b", "glibc", "c", "d"]);
    let depended = names(&["a", "d", "x"]);
    let builtins = names(&["glibc", "gcc-runtime", "libxcrypt"]);
    assert_eq!(unused_dependencies(&declared, &depended, &builtins), names(&["b", "c"]));
    assert!(unused_dependencies(&vec![], &depended, &builtins).is_empty());
}

#[test]
fn builtins_are_appended_once() {
    let builtins = names(&["glibc", "gcc-runtime", "libxcrypt"]);
    let r = with_builtins(&names(&["foo", "gcc-runtime"]), &builtins);
    assert_eq!(r, names(&["foo", "gcc-runtime", "glibc", "libxcrypt"]));
}

#[test]
fn end_to_end_audit() {
    let target = pkg("X", &[]);
    let depends = vec![pkg("A", &["libfoo.so"]), pkg("B", &[])];
    let binaries = vec![bin("x_bin", &["libbar.so", "libfoo.so"])];
    let builtins = names(&["glibc", "gcc-runtime", "libxcrypt"]);
    let audit = audit_sonames(&target, &depends, &binaries, &builtins);
    assert!(audit.conflicts.is_empty());
    assert_eq!(audit.report.unresolved.len(), 1);
    assert_eq!(audit.report.unresolved[0].binary, "x_bin");
    assert_eq!(audit.report.unresolved[0].soname, "libbar.so");
    assert_eq!(audit.report.depended, names(&["A"]));
    assert_eq!(audit.unused, names(&["B"]));
    assert_eq!(audit.report.files[0].file, "x_bin");
    assert_eq!(audit.report.files[0].packages, names(&["A"]));
    let graph = dickens::graph::render_sodep_graph(
        "X",
        &names(&["A", "B", "glibc"]),
        &builtins,
        &audit.report.files,
    );
    assert!(graph.contains("  file_0 -> A;\n"));
}
