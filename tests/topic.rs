use dickens::topic::{
    content_matches, count_diff_lines, digest_matches, is_blank, is_upgrade, keep_latest,
    merge_changes, merged_sorted, plan_diffs, render_topic_report, sort_by_package, to_hex,
    IndexEntry, TopicChange,
};

fn s(x: &str) -> String {
    x.to_string()
}

fn change(pkg: &str, arch: &str, old: &str, new: &str, diff: &str) -> TopicChange {
    TopicChange {
        package: s(pkg),
        archs: vec![s(arch)],
        old_version: s(old),
        new_version: s(new),
        diff: s(diff),
        old_size: 10,
        new_size: 20,
    }
}

fn entry(pkg: &str, arch: &str, version: &str) -> IndexEntry {
    IndexEntry {
        package: s(pkg),
        architecture: s(arch),
        version: s(version),
        filename: format!("pool/{}_{}_{}.deb", pkg, version, arch),
        sha256: s(""),
    }
}

#[test]
fn counts_diff_lines() {
    let diff = "--- a/list\n+++ b/list\n+/usr/bin/new\n-/usr/bin/old\n context\n+another\n---\n+++x\n";
    assert_eq!(count_diff_lines(diff), (2, 1));
    assert_eq!(count_diff_lines(""), (0, 0));
    assert_eq!(count_diff_lines("+"), (1, 0));
    assert_eq!(count_diff_lines("a+b\n-"), (0, 1));
}

#[test]
fn merges_same_change_across_archs() {
    let merged = merge_changes(vec![
        change("foo", "amd64", "1", "2", "d"),
        change("bar", "amd64", "", "1", "x"),
        change("foo", "arm64", "1", "2", "d"),
        change("foo", "riscv64", "1", "2", "other"),
    ]);
    assert_eq!(merged.len(), 3);
    assert_eq!(merged[0].archs, vec![s("amd64"), s("arm64")]);
    assert_eq!((merged[0].old_size, merged[0].new_size), (20, 40));
    assert_eq!(merged[2].archs, vec![s("riscv64")]);
    assert_eq!((merged[2].old_size, merged[2].new_size), (10, 20));
}

#[test]
fn merged_sizes_saturate() {
    let mut a = change("foo", "amd64", "1", "2", "d");
    a.new_size = u64::MAX - 1;
    let merged = merge_changes(vec![a, change("foo", "arm64", "1", "2", "d")]);
    assert_eq!(merged[0].new_size, u64::MAX);
}

#[test]
fn sorts_by_package_keeping_order() {
    let sorted = sort_by_package(vec![
        change("zlib", "amd64", "", "1", "a"),
        change("bash", "amd64", "", "1", "first"),
        change("bash", "arm64", "", "1", "second"),
        change("coreutils", "amd64", "", "1", "c"),
    ]);
    let order: Vec<(&str, &str)> = sorted.iter().map(|c| (c.package.as_str(), c.diff.as_str())).collect();
    assert_eq!(order, vec![("bash", "first"), ("bash", "second"), ("coreutils", "c"), ("zlib", "a")]);
}

#[test]
fn blank_text() {
    assert!(is_blank(""));
    assert!(is_blank(" \n\t\u{3000}"));
    assert!(!is_blank(" x "));
    for t in ["", "  ", "\u{a0}\u{2028}", "a", " \u{200b}"] {
        assert_eq!(is_blank(t), t.trim().is_empty());
    }
}

#[test]
fn renders_report() {
    let text = render_topic_report(
        &vec![
            change("bar", "amd64", "", "1.0", "+a"),
            TopicChange {
                package: s("foo"),
                archs: vec![s("amd64"), s("arm64")],
                old_version: s("1"),
                new_version: s("2"),
                diff: s("-x\n+y\n+z"),
                old_size: 1000,
                new_size: 1500,
            },
            change("qux", "amd64", "1", "2", " \n"),
        ],
        &vec![s(", size +20 B"), s(", size +500 B (+50.0%)"), s(", size +10 B (+100.0%)")],
    );
    let expected = "Dickens-topic report:\n\nbar introduced at 1.0 on amd64:\n<details>\n<summary>1 added, 0 removed, size +20 B</summary>\n\n```diff\n+a\n```\n</details>\nfoo upgraded from 1 to 2 on amd64, arm64:\n<details>\n<summary>2 added, 1 removed, size +500 B (+50.0%)</summary>\n\n```diff\n-x\n+y\n+z\n```\n</details>\nqux upgraded from 1 to 2 on amd64:\n\nNo changes, size +10 B (+100.0%)\n\n";
    assert_eq!(text, expected);
    assert_eq!(render_topic_report(&vec![], &vec![]), "Dickens-topic report:\n\n");
}

#[test]
fn report_merges_then_sorts() {
    let changes = merged_sorted(vec![
        change("b", "amd64", "", "1", ""),
        change("a", "amd64", "", "1", ""),
        change("b", "arm64", "", "1", ""),
    ]);
    let descs = vec![s(""), s("")];
    let text = render_topic_report(&changes, &descs);
    assert!(text.starts_with("Dickens-topic report:\n\na introduced at 1 on amd64:\n"));
    assert!(text.contains("b introduced at 1 on amd64, arm64:\n"));
}

#[test]
fn keeps_latest_version_per_key() {
    let kept = keep_latest(vec![
        entry("foo", "arm64", "1.0"),
        entry("foo", "amd64", "1.0-1"),
        entry("bar", "amd64", "1"),
        entry("foo", "amd64", "1.10-1"),
        entry("foo", "amd64", "1:0.1"),
        entry("foo", "arm64", "2.0"),
        entry("foo", "amd64", "1:0.1"),
    ])
    .unwrap();
    let v: Vec<(&str, &str, &str)> =
        kept.iter().map(|e| (e.package.as_str(), e.architecture.as_str(), e.version.as_str())).collect();
    assert_eq!(v, vec![("bar", "amd64", "1"), ("foo", "amd64", "1:0.1"), ("foo", "arm64", "2.0")]);
}

#[test]
fn unreadable_version_of_shared_key_fails() {
    assert!(keep_latest(vec![entry("p", "amd64", "1"), entry("q", "amd64", "1"), entry("p", "amd64", "2")]).is_some());
    assert!(keep_latest(vec![entry("p", "amd64", "1"), entry("p", "amd64", "")]).is_none());
    assert!(keep_latest(vec![entry("p", "amd64", ""), entry("q", "amd64", "1")]).is_some());
}

#[test]
fn upgrade_decision() {
    assert_eq!(is_upgrade(Some(-1)), Some(true));
    assert_eq!(is_upgrade(Some(0)), Some(false));
    assert_eq!(is_upgrade(Some(1)), Some(false));
    assert_eq!(is_upgrade(None), None);
}

#[test]
fn plans_upgrades_and_new_packages() {
    let topic = vec![
        entry("foo", "amd64", "2.0"),
        entry("foo-dbg", "amd64", "2.0"),
        entry("bar", "amd64", "1.0"),
        entry("baz", "amd64", "0.9"),
        entry("qux", "amd64", "3.0"),
    ];
    let stable = vec![entry("foo", "amd64", "1.0"), entry("baz", "amd64", "1.0"), entry("qux", "amd64", "3.0")];
    let plans = plan_diffs(&topic, &stable).unwrap();
    let v: Vec<(usize, Option<usize>)> = plans.iter().map(|p| (p.new_entry, p.old_entry)).collect();
    assert_eq!(v, vec![(0, Some(0)), (2, None)]);
}

#[test]
fn plan_fails_on_unreadable_version() {
    let topic = vec![entry("foo", "amd64", "")];
    let stable = vec![entry("foo", "amd64", "1.0")];
    assert!(plan_diffs(&topic, &stable).is_none());
    let dbg = vec![entry("foo-dbg", "amd64", "")];
    assert!(plan_diffs(&dbg, &vec![entry("foo-dbg", "amd64", "1")]).unwrap().is_empty());
}

#[test]
fn hex_and_digests() {
    assert_eq!(to_hex(&vec![0x00, 0x0f, 0xab, 0xff]), "000fabff");
    assert_eq!(to_hex(&vec![]), "");
    assert!(digest_matches(&vec![0xde, 0xad], "dead"));
    assert!(!digest_matches(&vec![0xde, 0xad], "DEAD"));
    let abc = "ba7816bf8f01cfea414140de5dae2223b00361a396177a9cb410ff61f20015ad";
    assert!(content_matches(&b"abc".to_vec(), abc));
    assert!(!content_matches(&b"abd".to_vec(), abc));
    assert!(!content_matches(&b"abc".to_vec(), "616263"));
}
