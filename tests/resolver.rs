use dickens::lint::{lint_spec, parse_usize, version_issues, SpecIssue};
use dickens::elf::{libraries_of, library_deps_of, read_dynamic_section, ElfObject};
use dickens::text::{base_name_of, bracket_value_of, contains, field_of, starts_with};

fn s(x: &str) -> String {
    x.to_string()
}

fn obj(path: &str, soname: Option<&str>, needed: &[&str]) -> ElfObject {
    ElfObject {
        path: s(path),
        soname: soname.map(s),
        needed: needed.iter().map(|n| s(n)).collect(),
    }
}

#[test]
fn text_helpers() {
    assert!(starts_with("/usr/include/stdio.h", "/usr/include/"));
    assert!(!starts_with("/usr/lib", "/usr/lib/"));
    assert!(contains("libfoo.so.1", ".so"));
    assert!(!contains("libfoo.a", ".so"));
    assert_eq!(base_name_of("/usr/lib/libfoo.so.1"), "libfoo.so.1");
    assert_eq!(base_name_of("plain"), "plain");
    assert_eq!(bracket_value_of(" 0x1 (NEEDED)  Shared library: [libc.so.6]"), "libc.so.6");
    assert_eq!(bracket_value_of("no brackets] here"), "no brackets");
    assert_eq!(field_of("  Depends: libc6 (>= 2.34)", 3), Some(s("libc6")));
    assert_eq!(field_of("  Depends:", 3), None);
    assert_eq!(field_of("  Depends:  x", 3), Some(s("")));
}

#[test]
fn reads_dynamic_section() {
    let lines = vec![
        s("Dynamic section at offset 0x2dd8 contains 27 entries:"),
        s("  Tag        Type                         Name/Value"),
        s(" 0x0000000000000001 (NEEDED)             Shared library: [libbar.so.2]"),
        s(" 0x0000000000000001 (NEEDED)             Shared library: [libc.so.6]"),
        s(" 0x000000000000000e (SONAME)             Library soname: [libfoo.so.1]"),
        s(" 0x000000000000000c (INIT)               0x1000"),
    ];
    let o = read_dynamic_section(s("/usr/lib/libfoo.so.1"), &lines);
    assert_eq!(o.path, "/usr/lib/libfoo.so.1");
    assert_eq!(o.soname, Some(s("libfoo.so.1")));
    assert_eq!(o.needed, vec![s("libbar.so.2"), s("libc.so.6")]);
}

#[test]
fn reads_empty_dynamic_section() {
    let o = read_dynamic_section(s("/usr/bin/script"), &vec![s("Not an ELF file")]);
    assert_eq!(o.soname, None);
    assert!(o.needed.is_empty());
}

#[test]
fn binary_view_filters_sorts_and_dedups() {
    let objs = vec![
        obj("/usr/bin/zed", None, &["libz.so.1", "libc.so.6", "libz.so.1"]),
        obj("/usr/share/doc/x", None, &["libc.so.6"]),
        obj("/usr/lib/libfoo.so.1", Some("libfoo.so.1"), &["libc.so.6"]),
        obj("/usr/lib/libfoo.so", Some("libfoo.so.1"), &["libc.so.6"]),
        obj("/usr/lib/libfoo.so.1", Some("libfoo.so.1"), &["libc.so.6"]),
        obj("/usr/lib/libnone.so", Some("libnone.so"), &[]),
        obj("/usr/bin/alpha", None, &["libm.so.6"]),
    ];
    let r = library_deps_of(&objs);
    let names: Vec<&str> = r.iter().map(|d| d.name.as_str()).collect();
    assert_eq!(names, vec!["alpha", "libfoo.so", "libfoo.so.1", "zed"]);
    assert_eq!(r[3].needed, vec![s("libc.so.6"), s("libz.so.1")]);
}

#[test]
fn binary_view_orders_equal_names_by_needed() {
    let objs = vec![
        obj("/usr/bin/tool", None, &["libz.so.1"]),
        obj("/opt/bin/tool", None, &["liba.so.1"]),
    ];
    let r = library_deps_of(&objs);
    assert_eq!(r.len(), 2);
    assert_eq!(r[0].needed, vec![s("liba.so.1")]);
    assert_eq!(r[1].needed, vec![s("libz.so.1")]);
}

#[test]
fn library_view_keys_by_soname() {
    let objs = vec![
        obj("/usr/lib/libfoo.so.1.2", Some("libfoo.so.1"), &["libc.so.6"]),
        obj("/usr/lib/libfoo.so.1", Some("libfoo.so.1"), &["libc.so.6"]),
        obj("/usr/lib/libbar.so.3.0", Some("libbar.so.3"), &[]),
        obj("/usr/bin/foo", None, &["libfoo.so.1"]),
        obj("/usr/lib/gconv/UTF-7.so", Some("UTF-7.so"), &[]),
        obj("/usr/lib/libonly_needed.so", None, &["libc.so.6"]),
    ];
    let r = libraries_of(&objs);
    assert_eq!(r, vec![s("libbar.so.3"), s("libfoo.so.1")]);
}

#[test]
fn elf_magic() {
    assert!(dickens::elf::has_elf_magic(&vec![0x7f, b'E', b'L', b'F']));
    assert!(!dickens::elf::has_elf_magic(&b"#!/b".to_vec()));
    assert!(!dickens::elf::has_elf_magic(&vec![0x7f, b'E']));
}

#[test]
fn resolver_is_deterministic_over_listing_order() {
    let a = vec![
        obj("/usr/bin/b", None, &["libx.so"]),
        obj("/usr/lib/liba.so", Some("liba.so"), &["libx.so"]),
        obj("/usr/bin/c", None, &["liby.so", "libx.so"]),
    ];
    let b = vec![
        obj("/usr/bin/c", None, &["libx.so", "liby.so"]),
        obj("/usr/bin/b", None, &["libx.so"]),
        obj("/usr/lib/liba.so", Some("liba.so"), &["libx.so"]),
    ];
    let ra = library_deps_of(&a);
    let rb = library_deps_of(&b);
    assert_eq!(ra.len(), rb.len());
    for (x, y) in ra.iter().zip(rb.iter()) {
        assert_eq!(x.name, y.name);
        assert_eq!(x.needed, y.needed);
    }
    assert_eq!(libraries_of(&a), libraries_of(&b));
    let again = library_deps_of(&a);
    assert_eq!(again.len(), ra.len());
}

#[test]
fn parses_unsigned_integers_like_std() {
    assert_eq!(parse_usize("0"), Some(0));
    assert_eq!(parse_usize("+12"), Some(12));
    assert_eq!(parse_usize("007"), Some(7));
    assert_eq!(parse_usize(""), None);
    assert_eq!(parse_usize("+"), None);
    assert_eq!(parse_usize("-1"), None);
    assert_eq!(parse_usize("1a"), None);
    assert_eq!(parse_usize(&usize::MAX.to_string()), Some(usize::MAX));
    assert_eq!(parse_usize("18446744073709551616"), None);
    for s in ["", "0", "+5", "12x", "99999999999999999999"] {
        assert_eq!(parse_usize(s), s.parse::<usize>().ok());
    }
}

#[test]
fn lint_rules() {
    assert_eq!(lint_spec(Some("1.2.3"), Some("1"), true), vec![]);
    assert_eq!(lint_spec(None, None, false), vec![SpecIssue::MissingVer, SpecIssue::MissingChkupdate]);
    assert_eq!(
        lint_spec(Some("1.0-RC_1"), Some("0"), true),
        vec![SpecIssue::VerHasDash, SpecIssue::VerHasUnderscore, SpecIssue::VerHasUppercase, SpecIssue::RelZero]
    );
    assert_eq!(lint_spec(Some("2.0"), Some("x"), true), vec![SpecIssue::RelInvalid]);
    assert_eq!(lint_spec(Some("2.0B"), None, true), vec![SpecIssue::VerHasUppercase]);
    assert_eq!(version_issues("abc", "abc"), vec![]);
    assert_eq!(version_issues("aBc", "abc"), vec![SpecIssue::VerHasUppercase]);
}
