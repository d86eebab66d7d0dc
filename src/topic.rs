//! The report of what a topic changes: the latest entry of each package in an index,
//! what to diff against the stable branch, findings of all architectures merged and
//! sorted by package, and each change written out with the size of its diff.
use vstd::prelude::*;
use crate::graph::{append_decimal, decimal};
use crate::order::{compare_str, str_lt, strs};
use vstd::utf8::encode_utf8;
use sha2::Digest;
use vstd::std_specs::iter::IteratorSpec;

verus! {

broadcast use vstd::string::axiom_spec_iter, vstd::string::next_postcondition;

/// A package that a topic introduces or upgrades, with the diff of its contents.
pub struct TopicChange {
    pub package: String,
    pub archs: Vec<String>,
    pub old_version: String,
    pub new_version: String,
    pub diff: String,
    /// Size in bytes of the package file being replaced (zero for a new package).
    pub old_size: u64,
    /// Size in bytes of the new package file.
    pub new_size: u64,
}

pub type ChangeView = (Seq<char>, Seq<Seq<char>>, Seq<char>, Seq<char>, Seq<char>, u64, u64);

pub open spec fn change_view(c: TopicChange) -> ChangeView {
    (c.package@, strs(c.archs@), c.old_version@, c.new_version@, c.diff@, c.old_size, c.new_size)
}

/// A sum of sizes, held at the largest `u64`.
pub open spec fn sat_add(a: u64, b: u64) -> u64 {
    if a + b > u64::MAX {
        u64::MAX
    } else {
        (a + b) as u64
    }
}

fn add_sizes(a: u64, b: u64) -> (r: u64)
    ensures
        r == sat_add(a, b),
{
    if a > u64::MAX - b {
        u64::MAX
    } else {
        a + b
    }
}

pub open spec fn change_views(v: Seq<TopicChange>) -> Seq<ChangeView> {
    v.map_values(|c: TopicChange| change_view(c))
}

/// Two findings are the same change when all but the architectures agree.
pub open spec fn same_change(a: ChangeView, b: ChangeView) -> bool {
    a.0 == b.0 && a.2 == b.2 && a.3 == b.3 && a.4 == b.4
}

/// The first position of a change the same as `c`, or -1.
pub open spec fn find_change(v: Seq<ChangeView>, c: ChangeView) -> int
    decreases v.len(),
{
    if v.len() == 0 {
        -1
    } else {
        let k = find_change(v.drop_last(), c);
        if k >= 0 {
            k
        } else if same_change(v.last(), c) {
            v.len() - 1
        } else {
            -1
        }
    }
}

/// Adds a finding: its architectures join those of the same change and its sizes are
/// added to that change's, or it is appended.
pub open spec fn merged_with(v: Seq<ChangeView>, c: ChangeView) -> Seq<ChangeView> {
    let k = find_change(v, c);
    if k >= 0 {
        v.update(k, (v[k].0, v[k].1 + c.1, v[k].2, v[k].3, v[k].4, sat_add(v[k].5, c.5), sat_add(v[k].6, c.6)))
    } else {
        v.push(c)
    }
}

proof fn lemma_find_change(v: Seq<ChangeView>, c: ChangeView)
    ensures
        -1 <= find_change(v, c) < v.len(),
        find_change(v, c) >= 0 ==> same_change(v[find_change(v, c)], c),
        forall|i: int| 0 <= i < v.len() && (find_change(v, c) < 0 || i < find_change(v, c)) ==> !same_change(#[trigger] v[i], c),
    decreases v.len(),
{
    if v.len() > 0 {
        lemma_find_change(v.drop_last(), c);
        assert forall|i: int| 0 <= i < v.len() - 1 implies v[i] == v.drop_last()[i] by {}
    }
}

/// Merges one finding into a list of changes.
pub fn merge_change(acc: &mut Vec<TopicChange>, c: TopicChange)
    ensures
        change_views(final(acc)@) == merged_with(change_views(old(acc)@), change_view(c)),
{
    let ghost cv = change_view(c);
    let ghost v0 = change_views(acc@);
    proof {
        lemma_find_change(v0, cv);
    }
    let mut i: usize = 0;
    while i < acc.len()
        invariant
            i <= acc@.len(),
            change_views(acc@) == v0,
            v0 == change_views(old(acc)@),
            cv == change_view(c),
            forall|k: int| 0 <= k < i ==> !same_change(#[trigger] v0[k], cv),
            -1 <= find_change(v0, cv) < v0.len(),
            find_change(v0, cv) >= 0 ==> same_change(v0[find_change(v0, cv)], cv),
            forall|k: int| 0 <= k < v0.len() && (find_change(v0, cv) < 0 || k < find_change(v0, cv)) ==> !same_change(#[trigger] v0[k], cv),
        decreases acc@.len() - i,
    {
        let cur = &acc[i];
        if compare_str(cur.package.as_str(), c.package.as_str()) == 0
            && compare_str(cur.old_version.as_str(), c.old_version.as_str()) == 0
            && compare_str(cur.new_version.as_str(), c.new_version.as_str()) == 0
            && compare_str(cur.diff.as_str(), c.diff.as_str()) == 0 {
            assert(same_change(v0[i as int], cv));
            assert(find_change(v0, cv) == i);
            let mut archs = acc[i].archs.clone();
            let mut j: usize = 0;
            let ghost a0 = strs(archs@);
            assert(archs@ =~= acc@[i as int].archs@);
            assert(a0 == v0[i as int].1);
            assert(strs(c.archs@).take(0) =~= Seq::<Seq<char>>::empty());
            assert(a0 + Seq::<Seq<char>>::empty() =~= a0);
            while j < c.archs.len()
                invariant
                    j <= c.archs@.len(),
                    strs(archs@) == a0 + strs(c.archs@).take(j as int),
                    i < acc@.len(),
                    change_views(acc@) == v0,
                    cv == change_view(c),
                    find_change(v0, cv) == i,
                    a0 == v0[i as int].1,
                decreases c.archs@.len() - j,
            {
                let ghost before = archs@;
                archs.push(c.archs[j].clone());
                assert(strs(archs@) =~= strs(before).push(c.archs@[j as int]@));
                assert(strs(c.archs@).take(j + 1) =~= strs(c.archs@).take(j as int).push(c.archs@[j as int]@));
                j = j + 1;
            }
            assert(strs(c.archs@).take(j as int) == strs(c.archs@));
            let merged = TopicChange {
                package: acc[i].package.clone(),
                archs,
                old_version: acc[i].old_version.clone(),
                new_version: acc[i].new_version.clone(),
                diff: acc[i].diff.clone(),
                old_size: add_sizes(acc[i].old_size, c.old_size),
                new_size: add_sizes(acc[i].new_size, c.new_size),
            };
            assert(change_view(merged) == (v0[i as int].0, v0[i as int].1 + cv.1, v0[i as int].2, v0[i as int].3, v0[i as int].4, sat_add(v0[i as int].5, cv.5), sat_add(v0[i as int].6, cv.6)));
            acc.set(i, merged);
            assert(change_views(acc@) =~= merged_with(v0, cv));
            return;
        }
        i = i + 1;
    }
    acc.push(c);
    assert(change_views(acc@) =~= v0.push(cv));
}

/// Places `c` after every change whose package does not come after its own.
pub open spec fn insert_by_package(v: Seq<ChangeView>, c: ChangeView) -> Seq<ChangeView>
    decreases v.len(),
{
    if v.len() == 0 {
        seq![c]
    } else if str_lt(c.0, v.last().0) {
        insert_by_package(v.drop_last(), c).push(v.last())
    } else {
        v.push(c)
    }
}

/// The changes sorted by package, those of one package kept in their order.
pub open spec fn sorted_by_package(v: Seq<ChangeView>) -> Seq<ChangeView>
    decreases v.len(),
{
    if v.len() == 0 {
        v
    } else {
        insert_by_package(sorted_by_package(v.drop_last()), v.last())
    }
}

/// Sorts changes by package name; changes of the same package keep their order.
pub fn sort_by_package(v: Vec<TopicChange>) -> (r: Vec<TopicChange>)
    ensures
        change_views(r@) == sorted_by_package(change_views(v@)),
{
    let mut v = v;
    let ghost all = change_views(v@);
    let ghost n = all.len();
    let mut r: Vec<TopicChange> = Vec::new();
    assert(all.take(0) =~= Seq::<ChangeView>::empty());
    assert(all.skip(0) == all);
    while v.len() > 0
        invariant
            n == all.len(),
            v@.len() <= n,
            change_views(v@) == all.skip(n - v@.len()),
            change_views(r@) == sorted_by_package(all.take(n - v@.len())),
        decreases v@.len(),
    {
        let ghost k = n - v@.len();
        let ghost vv = v@;
        let x = v.remove(0);
        proof {
            assert(change_views(vv)[0] == all[k]);
            assert(change_view(x) == all[k]);
            assert(all.take(k + 1).drop_last() == all.take(k));
            assert forall|j: int| 0 <= j < v@.len() implies change_views(v@)[j] == all.skip(k + 1)[j] by {
                assert(v@[j] == vv[j + 1]);
                assert(change_views(vv)[j + 1] == all.skip(k)[j + 1]);
            }
            assert(change_views(v@) =~= all.skip(k + 1));
        }
        insert_change(&mut r, x);
    }
    assert(all.take(n as int) == all);
    r
}

fn insert_change(r: &mut Vec<TopicChange>, x: TopicChange)
    ensures
        change_views(final(r)@) == insert_by_package(change_views(old(r)@), change_view(x)),
{
    let ghost xv = change_view(x);
    let mut i: usize = r.len();
    let ghost v0 = change_views(r@);
    assert(v0.take(v0.len() as int) == v0);
    assert(v0.skip(v0.len() as int) =~= Seq::<ChangeView>::empty());
    // Walk back over the changes whose package comes after that of `x`.
    let mut done = false;
    while i > 0 && !done
        invariant
            i <= r@.len(),
            change_views(r@) == v0,
            xv == change_view(x),
            insert_by_package(v0, xv) == insert_by_package(v0.take(i as int), xv) + v0.skip(i as int),
            done ==> i > 0 && !str_lt(xv.0, v0[i - 1].0),
        decreases i + (if done { 0int } else { 1int }),
    {
        let c = compare_str(x.package.as_str(), r[i - 1].package.as_str());
        assert(v0[i - 1].0 == r@[i - 1].package@);
        if c < 0 {
            proof {
                let t = v0.take(i as int);
                assert(t.drop_last() == v0.take(i - 1));
                assert(t.last() == v0[i - 1]);
                assert(v0.skip(i - 1) =~= seq![v0[i - 1]] + v0.skip(i as int));
                assert(insert_by_package(t, xv) == insert_by_package(v0.take(i - 1), xv).push(v0[i - 1]));
                assert(insert_by_package(t, xv) + v0.skip(i as int) =~= insert_by_package(v0.take(i - 1), xv)
                    + v0.skip(i - 1));
            }
            i = i - 1;
        } else {
            done = true;
        }
    }
    proof {
        let t = v0.take(i as int);
        if i > 0 {
            assert(t.last() == v0[i - 1]);
            assert(!str_lt(xv.0, t.last().0));
        }
        assert(insert_by_package(t, xv) == t.push(xv));
    }
    r.insert(i, x);
    assert(change_views(r@) =~= v0.take(i as int).push(xv) + v0.skip(i as int));
}

/// Byte `i` of `b` starts a line.
pub open spec fn line_start(b: Seq<u8>, i: int) -> bool {
    i == 0 || b[i - 1] == 10u8
}

/// A line that begins with `c` but not with three of it (a file header of the diff).
pub open spec fn marked_line_at(b: Seq<u8>, i: int, c: u8) -> bool {
    &&& 0 <= i < b.len()
    &&& line_start(b, i)
    &&& b[i] == c
    &&& !(i + 3 <= b.len() && b[i + 1] == c && b[i + 2] == c)
}

/// How many lines among the first `i` bytes begin with `c` but not with three of it.
pub open spec fn marked_lines(b: Seq<u8>, i: int, c: u8) -> nat
    decreases i,
{
    if i <= 0 {
        0
    } else {
        marked_lines(b, i - 1, c) + if marked_line_at(b, i - 1, c) {
            1nat
        } else {
            0nat
        }
    }
}

/// The lines a diff adds: those that begin with `+` but not with `+++`.
pub open spec fn added_lines(diff: Seq<char>) -> nat {
    marked_lines(encode_utf8(diff), encode_utf8(diff).len() as int, 43u8)
}

/// The lines a diff removes: those that begin with `-` but not with `---`.
pub open spec fn removed_lines(diff: Seq<char>) -> nat {
    marked_lines(encode_utf8(diff), encode_utf8(diff).len() as int, 45u8)
}

proof fn lemma_marked_lines_bound(b: Seq<u8>, i: int, c: u8)
    ensures
        i >= 0 ==> marked_lines(b, i, c) <= i,
    decreases i,
{
    if i > 0 {
        lemma_marked_lines_bound(b, i - 1, c);
    }
}

/// Counts the lines a diff adds and the lines it removes.
pub fn count_diff_lines(diff: &str) -> (r: (usize, usize))
    ensures
        r.0 == added_lines(diff@),
        r.1 == removed_lines(diff@),
{
    let b = diff.as_bytes();
    let ghost bs = encode_utf8(diff@);
    assert(b@ == bs);
    let n = b.len();
    let mut added: usize = 0;
    let mut removed: usize = 0;
    let mut i: usize = 0;
    while i < n
        invariant
            b@ == bs,
            n == bs.len(),
            i <= n,
            added == marked_lines(bs, i as int, 43u8),
            removed == marked_lines(bs, i as int, 45u8),
        decreases n - i,
    {
        proof {
            lemma_marked_lines_bound(bs, i as int, 43u8);
            lemma_marked_lines_bound(bs, i as int, 45u8);
        }
        if i == 0 || b[i - 1] == 10u8 {
            let c = b[i];
            if c == 43u8 || c == 45u8 {
                let header = n - i >= 3 && b[i + 1] == c && b[i + 2] == c;
                if !header {
                    if c == 43u8 {
                        added = added + 1;
                    } else {
                        removed = removed + 1;
                    }
                }
            }
        }
        i = i + 1;
    }
    (added, removed)
}

/// Names joined with `, `.
pub open spec fn joined(v: Seq<Seq<char>>) -> Seq<char>
    decreases v.len(),
{
    if v.len() == 0 {
        Seq::empty()
    } else if v.len() == 1 {
        v[0]
    } else {
        joined(v.drop_last()) + ", "@ + v.last()
    }
}

/// The first line of the section on one change.
pub open spec fn change_heading(c: ChangeView) -> Seq<char> {
    if c.2.len() == 0 {
        c.0 + " introduced at "@ + c.3 + " on "@ + joined(c.1) + ":\n"@
    } else {
        c.0 + " upgraded from "@ + c.2 + " to "@ + c.3 + " on "@ + joined(c.1) + ":\n"@
    }
}

/// What follows the first line of the section on one change: "No changes" for a diff
/// that is white space only, else the foldable diff with the number of lines it adds
/// and removes; `desc` describes the change in size.
pub open spec fn change_details(diff: Seq<char>, desc: Seq<char>) -> Seq<char> {
    if blank(diff) {
        "\n"@ + "No changes"@ + desc + "\n"@ + "\n"@
    } else {
        "<details>\n"@ + "<summary>"@ + decimal(added_lines(diff)) + " added, "@ + decimal(
            removed_lines(diff),
        ) + " removed"@ + desc + "</summary>\n"@ + "\n"@ + "```diff\n"@ + diff + "\n"@ + "```\n"@
            + "</details>\n"@
    }
}

/// The section of the report on one change.
pub open spec fn change_section(c: ChangeView, desc: Seq<char>) -> Seq<char> {
    change_heading(c) + change_details(c.4, desc)
}

/// The sections on the first `n` changes, each with its size description.
pub open spec fn report_sections(v: Seq<ChangeView>, descs: Seq<Seq<char>>, n: int) -> Seq<char>
    decreases n,
{
    if n <= 0 {
        Seq::empty()
    } else {
        report_sections(v, descs, n - 1) + change_section(v[n - 1], descs[n - 1])
    }
}

/// The report on a list of changes, in order.
pub open spec fn report_text(v: Seq<ChangeView>, descs: Seq<Seq<char>>) -> Seq<char> {
    "Dickens-topic report:\n"@ + "\n"@ + report_sections(v, descs, v.len() as int)
}

fn append_joined(r: &mut String, v: &Vec<String>)
    ensures
        final(r)@ == old(r)@ + joined(strs(v@)),
{
    let ghost h = r@;
    let mut i: usize = 0;
    assert(strs(v@).take(0) =~= Seq::<Seq<char>>::empty());
    assert(r@ =~= h + Seq::<char>::empty());
    while i < v.len()
        invariant
            i <= v@.len(),
            r@ == h + joined(strs(v@).take(i as int)),
        decreases v@.len() - i,
    {
        let ghost cur = strs(v@).take(i + 1);
        assert(cur.drop_last() == strs(v@).take(i as int));
        assert(cur.last() == v@[i as int]@);
        if i > 0 {
            r.append(", ");
        }
        r.append(v[i].as_str());
        proof {
            if i == 0 {
                assert(cur =~= seq![v@[0]@]);
            }
        }
        assert(r@ =~= h + joined(cur));
        i = i + 1;
    }
    assert(strs(v@).take(i as int) == strs(v@));
}

fn append_heading(r: &mut String, c: &TopicChange)
    ensures
        final(r)@ == old(r)@ + change_heading(change_view(*c)),
{
    let ghost h = r@;
    r.append(c.package.as_str());
    if c.old_version.unicode_len() == 0 {
        r.append(" introduced at ");
        r.append(c.new_version.as_str());
    } else {
        r.append(" upgraded from ");
        r.append(c.old_version.as_str());
        r.append(" to ");
        r.append(c.new_version.as_str());
    }
    r.append(" on ");
    append_joined(r, &c.archs);
    r.append(":\n");
    assert(r@ =~= h + change_heading(change_view(*c)));
}

fn append_details(r: &mut String, diff: &str, desc: &str)
    ensures
        final(r)@ == old(r)@ + change_details(diff@, desc@),
{
    let ghost h = r@;
    if is_blank(diff) {
        r.append("\n");
        r.append("No changes");
        r.append(desc);
        r.append("\n");
        r.append("\n");
        assert(r@ =~= h + change_details(diff@, desc@));
        return;
    }
    r.append("<details>\n");
    let (added, removed) = count_diff_lines(diff);
    r.append("<summary>");
    append_decimal(r, added);
    r.append(" added, ");
    append_decimal(r, removed);
    r.append(" removed");
    r.append(desc);
    r.append("</summary>\n");
    r.append("\n");
    r.append("```diff\n");
    r.append(diff);
    r.append("\n");
    r.append("```\n");
    r.append("</details>\n");
    assert(r@ =~= h + change_details(diff@, desc@));
}

fn append_section(r: &mut String, c: &TopicChange, desc: &str)
    ensures
        final(r)@ == old(r)@ + change_section(change_view(*c), desc@),
{
    let ghost h = r@;
    append_heading(r, c);
    append_details(r, c.diff.as_str(), desc);
    assert(r@ =~= h + change_section(change_view(*c), desc@));
}

/// Writes the report on a list of changes, each with the description of its change in
/// size.
pub fn render_topic_report(changes: &Vec<TopicChange>, size_descs: &Vec<String>) -> (r: String)
    requires
        size_descs@.len() == changes@.len(),
    ensures
        r@ == report_text(change_views(changes@), strs(size_descs@)),
{
    let ghost v = change_views(changes@);
    let ghost d = strs(size_descs@);
    let mut r = String::new();
    r.append("Dickens-topic report:\n");
    r.append("\n");
    let ghost h = r@;
    let mut i: usize = 0;
    assert(r@ =~= h + Seq::<char>::empty());
    while i < changes.len()
        invariant
            i <= changes@.len() == size_descs@.len(),
            v == change_views(changes@),
            d == strs(size_descs@),
            r@ == h + report_sections(v, d, i as int),
        decreases changes@.len() - i,
    {
        assert(v[i as int] == change_view(changes@[i as int]));
        assert(d[i as int] == size_descs@[i as int]@);
        append_section(&mut r, &changes[i], size_descs[i].as_str());
        assert(r@ =~= h + report_sections(v, d, i + 1));
        i = i + 1;
    }
    assert(r@ =~= report_text(v, d));
    r
}

/// Findings merged one after the other, from none.
pub open spec fn merged_all(v: Seq<ChangeView>) -> Seq<ChangeView>
    decreases v.len(),
{
    if v.len() == 0 {
        v
    } else {
        merged_with(merged_all(v.drop_last()), v.last())
    }
}

/// Merges findings, in order, into changes.
pub fn merge_changes(findings: Vec<TopicChange>) -> (r: Vec<TopicChange>)
    ensures
        change_views(r@) == merged_all(change_views(findings@)),
{
    let mut v = findings;
    let ghost all = change_views(v@);
    let ghost n = all.len();
    let mut r: Vec<TopicChange> = Vec::new();
    assert(all.take(0) =~= Seq::<ChangeView>::empty());
    assert(all.skip(0) == all);
    assert(change_views(r@) =~= Seq::<ChangeView>::empty());
    while v.len() > 0
        invariant
            n == all.len(),
            v@.len() <= n,
            change_views(v@) == all.skip(n - v@.len()),
            change_views(r@) == merged_all(all.take(n - v@.len())),
        decreases v@.len(),
    {
        let ghost k = n - v@.len();
        let ghost vv = v@;
        let x = v.remove(0);
        proof {
            assert(change_views(vv)[0] == all[k]);
            assert(all.take(k + 1).drop_last() == all.take(k));
            assert forall|j: int| 0 <= j < v@.len() implies change_views(v@)[j] == all.skip(k + 1)[j] by {
                assert(v@[j] == vv[j + 1]);
                assert(change_views(vv)[j + 1] == all.skip(k)[j + 1]);
            }
            assert(change_views(v@) =~= all.skip(k + 1));
        }
        merge_change(&mut r, x);
    }
    assert(all.take(n as int) == all);
    r
}

/// The changes found on every architecture, taken in order: findings of the same
/// change merged, then sorted by package.
pub fn merged_sorted(findings: Vec<TopicChange>) -> (r: Vec<TopicChange>)
    ensures
        change_views(r@) == sorted_by_package(merged_all(change_views(findings@))),
{
    let merged = merge_changes(findings);
    sort_by_package(merged)
}

/// One entry of a package index: what the report reads of it.
pub struct IndexEntry {
    pub package: String,
    pub architecture: String,
    pub version: String,
    pub filename: String,
    pub sha256: String,
}

/// Whether a text is a version by the Debian rules.
pub uninterp spec fn deb_version_valid(s: Seq<char>) -> bool;

/// The order of two versions by the Debian rules: negative, zero or positive.
pub uninterp spec fn deb_version_cmp(a: Seq<char>, b: Seq<char>) -> int;

/// Relies on `debversion::Version`'s `FromStr` to read both versions, and on its
/// `Ord::cmp` to order them; `None` when either does not read.
#[verifier::external_body]
fn compare_versions(a: &str, b: &str) -> (r: Option<i8>)
    ensures
        r.is_some() == (deb_version_valid(a@) && deb_version_valid(b@)),
        r.is_some() ==> r.unwrap() as int == deb_version_cmp(a@, b@) && -1 <= r.unwrap() <= 1,
{
    match (a.parse::<debversion::Version>(), b.parse::<debversion::Version>()) {
        (Ok(x), Ok(y)) => Some(match x.cmp(&y) {
            std::cmp::Ordering::Less => -1,
            std::cmp::Ordering::Equal => 0,
            std::cmp::Ordering::Greater => 1,
        }),
        _ => None,
    }
}

pub type EntryView = (Seq<char>, Seq<char>, Seq<char>, Seq<char>, Seq<char>);

pub open spec fn entry_view(e: IndexEntry) -> EntryView {
    (e.package@, e.architecture@, e.version@, e.filename@, e.sha256@)
}

pub open spec fn entry_views(v: Seq<IndexEntry>) -> Seq<EntryView> {
    v.map_values(|e: IndexEntry| entry_view(e))
}

/// Entries ordered by package, then by architecture.
pub open spec fn key_lt(a: EntryView, b: EntryView) -> bool {
    str_lt(a.0, b.0) || (a.0 == b.0 && str_lt(a.1, b.1))
}

pub open spec fn same_key(a: EntryView, b: EntryView) -> bool {
    a.0 == b.0 && a.1 == b.1
}

/// What a version comparison decides: whether the second version is the newer one, or
/// nothing when a version does not read.
pub open spec fn upgrade_of(cmp: Option<i8>) -> Option<bool> {
    match cmp {
        Some(c) => Some(c < 0),
        None => None,
    }
}

/// Decides from the comparison of an old version with a new one whether the new one
/// is newer; nothing when either version does not read.
pub fn is_upgrade(cmp: Option<i8>) -> (r: Option<bool>)
    ensures
        r == upgrade_of(cmp),
{
    match cmp {
        Some(c) => Some(c < 0),
        None => None,
    }
}

/// The comparison of two versions as `compare_versions` reports it.
pub open spec fn version_order(a: Seq<char>, b: Seq<char>) -> Option<i8> {
    if deb_version_valid(a) && deb_version_valid(b) {
        Some(deb_version_cmp(a, b) as i8)
    } else {
        None
    }
}

pub open spec fn then_append(o: Option<Seq<EntryView>>, t: Seq<EntryView>) -> Option<Seq<EntryView>> {
    match o {
        Some(p) => Some(p + t),
        None => None,
    }
}

/// Adds an entry to entries sorted by key with one per key: an entry of a new key goes
/// where its key belongs; of a known key, it replaces the kept one only when its
/// version is newer; nothing when the two versions cannot be compared.
pub open spec fn place(prev: Seq<EntryView>, x: EntryView) -> Option<Seq<EntryView>>
    decreases prev.len(),
{
    if prev.len() == 0 {
        Some(seq![x])
    } else if key_lt(x, prev.last()) {
        then_append(place(prev.drop_last(), x), seq![prev.last()])
    } else if same_key(x, prev.last()) {
        match upgrade_of(version_order(prev.last().2, x.2)) {
            Some(true) => Some(prev.update(prev.len() - 1, x)),
            Some(false) => Some(prev),
            None => None,
        }
    } else {
        Some(prev.push(x))
    }
}

/// The latest entry of each (package, architecture), sorted by that key; the first of
/// equal versions is kept.
pub open spec fn latest_by_key(v: Seq<EntryView>) -> Option<Seq<EntryView>>
    decreases v.len(),
{
    if v.len() == 0 {
        Some(Seq::empty())
    } else {
        match latest_by_key(v.drop_last()) {
            Some(p) => place(p, v.last()),
            None => None,
        }
    }
}

fn compare_key(a: &IndexEntry, b: &IndexEntry) -> (r: i8)
    ensures
        r < 0 <==> key_lt(entry_view(*a), entry_view(*b)),
        r == 0 <==> same_key(entry_view(*a), entry_view(*b)),
        r > 0 ==> !key_lt(entry_view(*a), entry_view(*b)) && !same_key(entry_view(*a), entry_view(*b)),
{
    proof {
        crate::order::lemma_str_lt_irreflexive(a.package@);
        crate::order::lemma_str_lt_irreflexive(a.architecture@);
    }
    let c = compare_str(a.package.as_str(), b.package.as_str());
    if c != 0 {
        proof {
            if str_lt(a.package@, b.package@) && str_lt(b.package@, a.package@) {
                crate::order::lemma_str_lt_transitive(a.package@, b.package@, a.package@);
            }
        }
        return c;
    }
    compare_str(a.architecture.as_str(), b.architecture.as_str())
}

fn place_entry(r: &mut Vec<IndexEntry>, x: IndexEntry) -> (ok: bool)
    ensures
        ok ==> place(entry_views(old(r)@), entry_view(x)) == Some(entry_views(final(r)@)),
        !ok ==> place(entry_views(old(r)@), entry_view(x)) is None,
{
    let ghost xv = entry_view(x);
    let ghost v0 = entry_views(r@);
    let mut i: usize = r.len();
    assert(v0.take(v0.len() as int) == v0);
    assert(v0.skip(v0.len() as int) =~= Seq::<EntryView>::empty());
    assert(then_append(place(v0, xv), Seq::<EntryView>::empty()) == place(v0, xv)) by {
        match place(v0, xv) {
            Some(p) => assert(p + Seq::<EntryView>::empty() =~= p),
            None => {},
        }
    }
    let mut c: i8 = 1;
    let mut done = false;
    while i > 0 && !done
        invariant
            i <= r@.len(),
            entry_views(r@) == v0,
            xv == entry_view(x),
            place(v0, xv) == then_append(place(v0.take(i as int), xv), v0.skip(i as int)),
            done ==> i > 0 && c >= 0 && (c == 0 <==> same_key(xv, v0[i - 1])) && !key_lt(xv, v0[i - 1]),
        decreases i + (if done { 0int } else { 1int }),
    {
        c = compare_key(&x, &r[i - 1]);
        assert(v0[i - 1] == entry_view(r@[i - 1]));
        if c < 0 {
            proof {
                let t = v0.take(i as int);
                assert(t.drop_last() == v0.take(i - 1));
                assert(t.last() == v0[i - 1]);
                assert(v0.skip(i - 1) =~= seq![v0[i - 1]] + v0.skip(i as int));
                match place(v0.take(i - 1), xv) {
                    Some(p) => {
                        assert(p.push(v0[i - 1]) + v0.skip(i as int) =~= p + v0.skip(i - 1));
                    },
                    None => {},
                }
            }
            i = i - 1;
        } else {
            done = true;
        }
    }
    let ghost t = v0.take(i as int);
    if done && c == 0 {
        assert(t.last() == v0[i - 1]);
        let up = is_upgrade(compare_versions(r[i - 1].version.as_str(), x.version.as_str()));
        assert(entry_view(r@[i - 1]).2 == t.last().2);
        match up {
            Some(true) => {
                r.set(i - 1, x);
                assert(entry_views(r@) =~= t.update(i - 1, xv) + v0.skip(i as int));
                true
            },
            Some(false) => {
                assert(t + v0.skip(i as int) =~= v0);
                true
            },
            None => false,
        }
    } else {
        proof {
            if i > 0 {
                assert(t.last() == v0[i - 1]);
            }
        }
        r.insert(i, x);
        assert(entry_views(r@) =~= t.push(xv) + v0.skip(i as int));
        true
    }
}

/// Keeps the latest entry of each (package, architecture), sorted by that key;
/// nothing when two entries of one key carry a version that does not read.
pub fn keep_latest(entries: Vec<IndexEntry>) -> (r: Option<Vec<IndexEntry>>)
    ensures
        r matches Some(v) ==> latest_by_key(entry_views(entries@)) == Some(entry_views(v@)),
        r is None ==> latest_by_key(entry_views(entries@)) is None,
{
    let mut v = entries;
    let ghost all = entry_views(v@);
    let ghost n = all.len();
    let mut r: Vec<IndexEntry> = Vec::new();
    assert(all.take(0) =~= Seq::<EntryView>::empty());
    assert(all.skip(0) == all);
    assert(entry_views(r@) =~= Seq::<EntryView>::empty());
    while v.len() > 0
        invariant
            n == all.len(),
            all == entry_views(entries@),
            v@.len() <= n,
            entry_views(v@) == all.skip(n - v@.len()),
            latest_by_key(all.take(n - v@.len())) == Some(entry_views(r@)),
        decreases v@.len(),
    {
        let ghost k = n - v@.len();
        let ghost vv = v@;
        let x = v.remove(0);
        proof {
            assert(entry_views(vv)[0] == all[k]);
            assert(all.take(k + 1).drop_last() == all.take(k));
            assert(all.take(k + 1).last() == entry_view(x));
            assert forall|j: int| 0 <= j < v@.len() implies entry_views(v@)[j] == all.skip(k + 1)[j] by {
                assert(v@[j] == vv[j + 1]);
                assert(entry_views(vv)[j + 1] == all.skip(k)[j + 1]);
            }
            assert(entry_views(v@) =~= all.skip(k + 1));
        }
        if !place_entry(&mut r, x) {
            proof {
                lemma_latest_stays_none(all, k + 1);
            }
            return None;
        }
    }
    assert(all.take(n as int) == all);
    Some(r)
}

proof fn lemma_latest_stays_none(all: Seq<EntryView>, k: int)
    requires
        0 < k <= all.len(),
        latest_by_key(all.take(k)) is None,
    ensures
        latest_by_key(all) is None,
    decreases all.len() - k,
{
    if k < all.len() {
        assert(all.take(k + 1).drop_last() == all.take(k));
        lemma_latest_stays_none(all, k + 1);
    } else {
        assert(all.take(k) == all);
    }
}

/// A package to diff: the new entry of the topic and, for an upgrade, the entry of the
/// stable branch it replaces.
pub struct DiffPlan {
    pub new_entry: usize,
    pub old_entry: Option<usize>,
}

pub open spec fn has_suffix(s: Seq<char>, p: Seq<char>) -> bool {
    p.len() <= s.len() && s.skip(s.len() - p.len()) == p
}

/// The position of the first entry for package `name`, or -1.
pub open spec fn first_entry(v: Seq<EntryView>, name: Seq<char>) -> int
    decreases v.len(),
{
    if v.len() == 0 {
        -1
    } else {
        let k = first_entry(v.drop_last(), name);
        if k >= 0 {
            k
        } else if v.last().0 == name {
            v.len() - 1
        } else {
            -1
        }
    }
}

/// What to diff for one topic entry: nothing for a debug package; the new entry alone
/// for a package that stable lacks; against the first stable entry of the package for
/// an upgrade; nothing when stable is not older. `None` when the two versions cannot
/// be compared.
pub open spec fn plan_for(
    topic: Seq<EntryView>,
    stable: Seq<EntryView>,
    i: int,
) -> Option<Option<(int, Option<int>)>> {
    let t = topic[i];
    let k = first_entry(stable, t.0);
    if has_suffix(t.0, "-dbg"@) {
        Some(None)
    } else if k < 0 {
        Some(Some((i, None)))
    } else {
        match upgrade_of(version_order(stable[k].2, t.2)) {
            Some(true) => Some(Some((i, Some(k)))),
            Some(false) => Some(None),
            None => None,
        }
    }
}

/// The plans for the first `n` topic entries, in order, or `None` when a version
/// comparison among them fails.
pub open spec fn plans(topic: Seq<EntryView>, stable: Seq<EntryView>, n: int) -> Option<
    Seq<(int, Option<int>)>,
>
    decreases n,
{
    if n <= 0 {
        Some(Seq::empty())
    } else {
        match plans(topic, stable, n - 1) {
            None => None,
            Some(prev) => match plan_for(topic, stable, n - 1) {
                None => None,
                Some(Some(p)) => Some(prev.push(p)),
                Some(None) => Some(prev),
            },
        }
    }
}

pub open spec fn plan_view(p: DiffPlan) -> (int, Option<int>) {
    (
        p.new_entry as int,
        match p.old_entry {
            Some(k) => Some(k as int),
            None => None,
        },
    )
}

proof fn lemma_first_entry(v: Seq<EntryView>, name: Seq<char>)
    ensures
        -1 <= first_entry(v, name) < v.len(),
        first_entry(v, name) >= 0 ==> v[first_entry(v, name)].0 == name,
        forall|j: int|
            0 <= j < v.len() && (first_entry(v, name) < 0 || j < first_entry(v, name)) ==> #[trigger] v[j].0
                != name,
    decreases v.len(),
{
    if v.len() > 0 {
        lemma_first_entry(v.drop_last(), name);
        assert forall|j: int| 0 <= j < v.len() - 1 implies v[j] == v.drop_last()[j] by {}
    }
}

fn find_entry(v: &Vec<IndexEntry>, name: &str) -> (r: Option<usize>)
    ensures
        r matches Some(k) ==> first_entry(entry_views(v@), name@) == k && k < v@.len(),
        r is None ==> first_entry(entry_views(v@), name@) < 0,
{
    proof {
        lemma_first_entry(entry_views(v@), name@);
    }
    let mut i: usize = 0;
    while i < v.len()
        invariant
            i <= v@.len(),
            forall|j: int| 0 <= j < i ==> #[trigger] entry_views(v@)[j].0 != name@,
        decreases v@.len() - i,
    {
        if compare_str(v[i].package.as_str(), name) == 0 {
            assert(entry_views(v@)[i as int].0 == name@);
            proof {
                lemma_first_entry(entry_views(v@), name@);
            }
            return Some(i);
        }
        i = i + 1;
    }
    None
}

fn ends_with(s: &str, p: &str) -> (r: bool)
    ensures
        r == has_suffix(s@, p@),
{
    let n = s.unicode_len();
    let m = p.unicode_len();
    if m > n {
        return false;
    }
    let r = crate::text::matches_at(s, p, n - m);
    assert(s@.subrange((n - m) as int, n as int) == s@.skip((n - m) as int));
    r
}

/// Decides which topic entries to diff, and against which stable entries; nothing
/// when the versions of a package and of its stable counterpart cannot be compared.
pub fn plan_diffs(topic: &Vec<IndexEntry>, stable: &Vec<IndexEntry>) -> (r: Option<Vec<DiffPlan>>)
    ensures
        r matches Some(v) ==> plans(entry_views(topic@), entry_views(stable@), topic@.len() as int)
            == Some(v@.map_values(|p: DiffPlan| plan_view(p))),
        r is None ==> plans(entry_views(topic@), entry_views(stable@), topic@.len() as int) is None,
{
    let ghost tv = entry_views(topic@);
    let ghost sv = entry_views(stable@);
    let mut r: Vec<DiffPlan> = Vec::new();
    let mut i: usize = 0;
    assert(r@.map_values(|p: DiffPlan| plan_view(p)) =~= Seq::<(int, Option<int>)>::empty());
    while i < topic.len()
        invariant
            i <= topic@.len(),
            tv == entry_views(topic@),
            sv == entry_views(stable@),
            plans(tv, sv, i as int) == Some(r@.map_values(|p: DiffPlan| plan_view(p))),
        decreases topic@.len() - i,
    {
        let ghost before = r@;
        let t = &topic[i];
        assert(tv[i as int] == entry_view(*t));
        if !ends_with(t.package.as_str(), "-dbg") {
            match find_entry(stable, t.package.as_str()) {
                None => {
                    r.push(DiffPlan { new_entry: i, old_entry: None });
                },
                Some(k) => {
                    assert(sv[k as int] == entry_view(stable@[k as int]));
                    match is_upgrade(compare_versions(stable[k].version.as_str(), t.version.as_str())) {
                        Some(true) => {
                            r.push(DiffPlan { new_entry: i, old_entry: Some(k) });
                        },
                        Some(false) => {},
                        None => {
                            proof {
                                lemma_plans_stay_none(tv, sv, i + 1);
                            }
                            return None;
                        },
                    }
                },
            }
        }
        assert(plans(tv, sv, i + 1) == Some(r@.map_values(|p: DiffPlan| plan_view(p)))) by {
            if r@.len() > before.len() {
                assert(r@ == before.push(r@.last()));
                assert(r@.map_values(|p: DiffPlan| plan_view(p)) =~= before.map_values(|p: DiffPlan| plan_view(p)).push(plan_view(r@.last())));
            } else {
                assert(r@ == before);
            }
        }
        i = i + 1;
    }
    Some(r)
}

proof fn lemma_plans_stay_none(tv: Seq<EntryView>, sv: Seq<EntryView>, k: int)
    requires
        0 < k <= tv.len(),
        plans(tv, sv, k) is None,
    ensures
        plans(tv, sv, tv.len() as int) is None,
    decreases tv.len() - k,
{
    if k < tv.len() {
        lemma_plans_stay_none(tv, sv, k + 1);
    }
}

/// The SHA-256 digest of some bytes.
pub uninterp spec fn sha256_of(b: Seq<u8>) -> Seq<u8>;

/// Relies on `sha2::Sha256::digest`: the digest of the bytes, 32 bytes long.
#[verifier::external_body]
fn sha256(content: &Vec<u8>) -> (r: Vec<u8>)
    ensures
        r@ == sha256_of(content@),
        r@.len() == 32,
{
    sha2::Sha256::digest(content.as_slice()).to_vec()
}

/// Lower-case hexadecimal, two digits per byte.
pub open spec fn hex_of(b: Seq<u8>) -> Seq<char>
    decreases b.len(),
{
    if b.len() == 0 {
        Seq::empty()
    } else {
        hex_of(b.drop_last()) + seq!["0123456789abcdef"@[(b.last() / 16) as int], "0123456789abcdef"@[(b.last() % 16) as int]]
    }
}

/// Writes bytes in lower-case hexadecimal.
pub fn to_hex(b: &Vec<u8>) -> (r: String)
    ensures
        r@ == hex_of(b@),
{
    let digits = "0123456789abcdef";
    proof {
        reveal_strlit("0123456789abcdef");
    }
    let mut r = String::new();
    let mut i: usize = 0;
    assert(b@.take(0) =~= Seq::<u8>::empty());
    while i < b.len()
        invariant
            i <= b@.len(),
            digits@ == "0123456789abcdef"@,
            digits@.len() == 16,
            r@ == hex_of(b@.take(i as int)),
        decreases b@.len() - i,
    {
        let x = b[i];
        let hi = (x / 16) as usize;
        let lo = (x % 16) as usize;
        r.append(digits.substring_char(hi, hi + 1));
        r.append(digits.substring_char(lo, lo + 1));
        assert(b@.take(i + 1).drop_last() == b@.take(i as int));
        assert(r@ =~= hex_of(b@.take(i + 1)));
        i = i + 1;
    }
    assert(b@.take(i as int) == b@);
    r
}

/// Whether a digest, written in hexadecimal, is the expected one.
pub fn digest_matches(digest: &Vec<u8>, expected: &str) -> (r: bool)
    ensures
        r == (hex_of(digest@) == expected@),
{
    let h = to_hex(digest);
    compare_str(h.as_str(), expected) == 0
}

/// Whether the contents of a downloaded file have the expected SHA-256 digest.
pub fn content_matches(content: &Vec<u8>, expected: &str) -> (r: bool)
    ensures
        r == (hex_of(sha256_of(content@)) == expected@),
{
    let d = sha256(content);
    digest_matches(&d, expected)
}

/// A character with the Unicode White_Space property.
pub open spec fn is_white_space(c: char) -> bool {
    ||| '\u{9}' <= c <= '\u{d}'
    ||| c == ' '
    ||| c == '\u{85}'
    ||| c == '\u{a0}'
    ||| c == '\u{1680}'
    ||| '\u{2000}' <= c <= '\u{200a}'
    ||| c == '\u{2028}'
    ||| c == '\u{2029}'
    ||| c == '\u{202f}'
    ||| c == '\u{205f}'
    ||| c == '\u{3000}'
}

/// A text that trimming leaves empty: white space only.
pub open spec fn blank(s: Seq<char>) -> bool {
    forall|i: int| 0 <= i < s.len() ==> is_white_space(#[trigger] s[i])
}

fn white_space(c: char) -> (r: bool)
    ensures
        r == is_white_space(c),
{
    ('\u{9}' <= c && c <= '\u{d}') || c == ' ' || c == '\u{85}' || c == '\u{a0}' || c == '\u{1680}'
        || ('\u{2000}' <= c && c <= '\u{200a}') || c == '\u{2028}' || c == '\u{2029}' || c
        == '\u{202f}' || c == '\u{205f}' || c == '\u{3000}'
}

/// Whether a text holds nothing but white space.
pub fn is_blank(s: &str) -> (r: bool)
    ensures
        r == blank(s@),
{
    let mut it = s.chars();
    let ghost mut k: int = 0;
    loop
        invariant
            0 <= k <= s@.len(),
            it.remaining() == s@.skip(k),
            forall|i: int| 0 <= i < k ==> is_white_space(#[trigger] s@[i]),
        decreases s@.len() - k,
    {
        let ghost before = it.remaining();
        match it.next() {
            Some(c) => {
                assert(before.len() > 0);
                assert(c == s@[k]);
                if !white_space(c) {
                    return false;
                }
                proof {
                    assert(it.remaining() =~= s@.skip(k + 1));
                    k = k + 1;
                }
            },
            None => {
                assert(before.len() == 0);
                return true;
            },
        }
    }
}

/// Strictly increasing by (package, architecture): one entry per key.
pub open spec fn sorted_by_key(s: Seq<EntryView>) -> bool {
    forall|i: int, j: int| 0 <= i < j < s.len() ==> key_lt(#[trigger] s[i], #[trigger] s[j])
}

proof fn lemma_key_lt_facts()
    ensures
        forall|a: EntryView| !key_lt(a, a),
        forall|a: EntryView, b: EntryView, c: EntryView|
            #[trigger] key_lt(a, b) && #[trigger] key_lt(b, c) ==> key_lt(a, c),
        forall|a: EntryView, b: EntryView| key_lt(a, b) || same_key(a, b) || key_lt(b, a),
        forall|a: EntryView, b: EntryView, c: EntryView|
            #[trigger] key_lt(a, b) && #[trigger] same_key(b, c) ==> key_lt(a, c),
        forall|a: EntryView, b: EntryView| #[trigger] key_lt(a, b) ==> !same_key(a, b),
{
    assert forall|a: EntryView| !key_lt(a, a) by {
        crate::order::lemma_str_lt_irreflexive(a.0);
        crate::order::lemma_str_lt_irreflexive(a.1);
    }
    assert forall|a: EntryView, b: EntryView, c: EntryView|
        #[trigger] key_lt(a, b) && #[trigger] key_lt(b, c) implies key_lt(a, c) by {
        if str_lt(a.0, b.0) && str_lt(b.0, c.0) {
            crate::order::lemma_str_lt_transitive(a.0, b.0, c.0);
        } else if a.0 == b.0 && b.0 == c.0 {
            crate::order::lemma_str_lt_transitive(a.1, b.1, c.1);
        }
    }
    assert forall|a: EntryView, b: EntryView| key_lt(a, b) || same_key(a, b) || key_lt(b, a) by {
        crate::order::lemma_str_lt_total(a.0, b.0);
        crate::order::lemma_str_lt_total(a.1, b.1);
    }
    assert forall|a: EntryView, b: EntryView| #[trigger] key_lt(a, b) implies !same_key(a, b) by {
        crate::order::lemma_str_lt_irreflexive(a.0);
        crate::order::lemma_str_lt_irreflexive(a.1);
    }
}

proof fn lemma_place(prev: Seq<EntryView>, x: EntryView)
    requires
        sorted_by_key(prev),
    ensures
        place(prev, x) matches Some(p) ==> {
            &&& sorted_by_key(p)
            &&& forall|i: int| 0 <= i < p.len() ==> p[i] == x || prev.contains(#[trigger] p[i])
            &&& exists|i: int| 0 <= i < p.len() && same_key(#[trigger] p[i], x)
            &&& forall|k: int|
                0 <= k < prev.len() ==> exists|i: int| 0 <= i < p.len() && same_key(#[trigger] p[i], #[trigger] prev[k])
        },
    decreases prev.len(),
{
    lemma_key_lt_facts();
    if prev.len() == 0 {
        if let Some(p) = place(prev, x) {
            assert(same_key(p[0], x));
        }
    } else {
        let l = prev.last();
        let n = prev.len() - 1;
        let q0 = prev.drop_last();
        assert(sorted_by_key(q0)) by {
            assert forall|i: int, j: int| 0 <= i < j < q0.len() implies key_lt(#[trigger] q0[i], #[trigger] q0[j]) by {
                assert(q0[i] == prev[i] && q0[j] == prev[j]);
            }
        }
        if key_lt(x, l) {
            lemma_place(q0, x);
            if let Some(q) = place(q0, x) {
                let p = q.push(l);
                assert(place(prev, x) == Some(p)) by {
                    assert(q + seq![l] =~= p);
                }
                assert forall|i: int| 0 <= i < q.len() implies key_lt(#[trigger] q[i], l) by {
                    if q[i] != x {
                        let m = choose|m: int| 0 <= m < q0.len() && q0[m] == q[i];
                        assert(prev[m] == q0[m]);
                        assert(key_lt(prev[m], prev[n]));
                    }
                }
                assert forall|i: int, j: int| 0 <= i < j < p.len() implies key_lt(#[trigger] p[i], #[trigger] p[j]) by {
                    if j == q.len() {
                        assert(p[i] == q[i]);
                    } else {
                        assert(p[i] == q[i] && p[j] == q[j]);
                    }
                }
                assert forall|i: int| 0 <= i < p.len() implies p[i] == x || prev.contains(#[trigger] p[i]) by {
                    if i == q.len() {
                        assert(prev[n] == p[i]);
                    } else {
                        assert(p[i] == q[i]);
                        if q[i] != x {
                            let m = choose|m: int| 0 <= m < q0.len() && q0[m] == q[i];
                            assert(prev[m] == q0[m]);
                        }
                    }
                }
                let w = choose|i: int| 0 <= i < q.len() && same_key(#[trigger] q[i], x);
                assert(p[w] == q[w]);
                assert forall|k: int| 0 <= k < prev.len() implies exists|i: int|
                    0 <= i < p.len() && same_key(#[trigger] p[i], #[trigger] prev[k]) by {
                    if k == n {
                        assert(same_key(p[q.len() as int], prev[k]));
                    } else {
                        assert(q0[k] == prev[k]);
                        let i = choose|i: int| 0 <= i < q.len() && same_key(#[trigger] q[i], q0[k]);
                        assert(p[i] == q[i]);
                    }
                }
            }
        } else if same_key(x, l) {
            if let Some(p) = place(prev, x) {
                assert(p.len() == prev.len());
                assert forall|i: int| 0 <= i < n implies #[trigger] p[i] == prev[i] by {}
                assert forall|i: int, j: int| 0 <= i < j < p.len() implies key_lt(#[trigger] p[i], #[trigger] p[j]) by {
                    assert(key_lt(prev[i], prev[j]));
                    if j == n && p[j] == x {
                        assert(same_key(prev[j], x));
                    }
                }
                assert forall|i: int| 0 <= i < p.len() implies p[i] == x || prev.contains(#[trigger] p[i]) by {
                    if p[i] != x {
                        assert(p[i] == prev[i]);
                    }
                }
                assert(same_key(p[n], x));
                assert forall|k: int| 0 <= k < prev.len() implies exists|i: int|
                    0 <= i < p.len() && same_key(#[trigger] p[i], #[trigger] prev[k]) by {
                    if k < n {
                        assert(same_key(p[k], prev[k]));
                    } else {
                        assert(same_key(p[n], prev[k]));
                    }
                }
            }
        } else {
            assert(key_lt(l, x));
            let p = prev.push(x);
            assert forall|i: int, j: int| 0 <= i < j < p.len() implies key_lt(#[trigger] p[i], #[trigger] p[j]) by {
                if j == prev.len() {
                    if i < n {
                        assert(key_lt(prev[i], prev[n]));
                    }
                } else {
                    assert(key_lt(prev[i], prev[j]));
                }
            }
            assert forall|i: int| 0 <= i < p.len() implies p[i] == x || prev.contains(#[trigger] p[i]) by {
                if i < prev.len() {
                    assert(prev[i] == p[i]);
                }
            }
            assert(same_key(p[prev.len() as int], x));
            assert forall|k: int| 0 <= k < prev.len() implies exists|i: int|
                0 <= i < p.len() && same_key(#[trigger] p[i], #[trigger] prev[k]) by {
                assert(same_key(p[k], prev[k]));
            }
        }
    }
}

/// What `keep_latest` keeps is strictly increasing by (package, architecture), so it
/// holds one entry per key; every entry comes from the index, and every key of the
/// index is there.
pub proof fn lemma_latest_by_key(v: Seq<EntryView>)
    ensures
        latest_by_key(v) matches Some(p) ==> {
            &&& sorted_by_key(p)
            &&& forall|i: int| 0 <= i < p.len() ==> v.contains(#[trigger] p[i])
            &&& forall|k: int| 0 <= k < v.len() ==> exists|i: int| 0 <= i < p.len() && same_key(#[trigger] p[i], #[trigger] v[k])
        },
    decreases v.len(),
{
    if v.len() > 0 {
        let u = v.drop_last();
        lemma_latest_by_key(u);
        if let Some(q) = latest_by_key(u) {
            lemma_place(q, v.last());
            if let Some(p) = place(q, v.last()) {
                lemma_latest_step_from(v, q, p);
                lemma_latest_step_keys(v, q, p);
            }
        }
    }
}

proof fn lemma_latest_step_from(v: Seq<EntryView>, q: Seq<EntryView>, p: Seq<EntryView>)
    requires
        v.len() > 0,
        forall|i: int| 0 <= i < q.len() ==> v.drop_last().contains(#[trigger] q[i]),
        forall|i: int| 0 <= i < p.len() ==> p[i] == v.last() || q.contains(#[trigger] p[i]),
    ensures
        forall|i: int| 0 <= i < p.len() ==> v.contains(#[trigger] p[i]),
{
    let u = v.drop_last();
    assert forall|i: int| 0 <= i < p.len() implies v.contains(#[trigger] p[i]) by {
        if p[i] == v.last() {
            assert(v[v.len() - 1] == p[i]);
        } else {
            let m = choose|m: int| 0 <= m < q.len() && q[m] == p[i];
            assert(u.contains(q[m]));
            let t = choose|t: int| 0 <= t < u.len() && u[t] == q[m];
            assert(v[t] == u[t]);
        }
    }
}

proof fn lemma_latest_step_keys(v: Seq<EntryView>, q: Seq<EntryView>, p: Seq<EntryView>)
    requires
        v.len() > 0,
        forall|k: int| 0 <= k < v.len() - 1 ==> exists|i: int| 0 <= i < q.len() && same_key(#[trigger] q[i], #[trigger] v.drop_last()[k]),
        exists|i: int| 0 <= i < p.len() && same_key(#[trigger] p[i], v.last()),
        forall|k: int| 0 <= k < q.len() ==> exists|i: int| 0 <= i < p.len() && same_key(#[trigger] p[i], #[trigger] q[k]),
    ensures
        forall|k: int| 0 <= k < v.len() ==> exists|i: int| 0 <= i < p.len() && same_key(#[trigger] p[i], #[trigger] v[k]),
{
    let u = v.drop_last();
    assert forall|k: int| 0 <= k < v.len() implies exists|i: int|
        0 <= i < p.len() && same_key(#[trigger] p[i], #[trigger] v[k]) by {
        if k < v.len() - 1 {
            assert(u[k] == v[k]);
            let m = choose|m: int| 0 <= m < q.len() && same_key(#[trigger] q[m], #[trigger] u[k]);
            let i = choose|i: int| 0 <= i < p.len() && same_key(#[trigger] p[i], #[trigger] q[m]);
            assert(same_key(p[i], v[k]));
        } else {
            assert(v[k] == v.last());
            let i = choose|i: int| 0 <= i < p.len() && same_key(#[trigger] p[i], v.last());
            assert(same_key(p[i], v[k]));
        }
    }
}

} // verus!
