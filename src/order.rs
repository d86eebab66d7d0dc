//! Lexicographic order on names, and sorted sets of names.
use vstd::prelude::*;

verus! {

/// Strict lexicographic order on character sequences, by code point.
pub open spec fn str_lt(a: Seq<char>, b: Seq<char>) -> bool
    decreases a.len(),
{
    if a.len() == 0 {
        b.len() > 0
    } else if b.len() == 0 {
        false
    } else if a[0] != b[0] {
        a[0] < b[0]
    } else {
        str_lt(a.drop_first(), b.drop_first())
    }
}

/// The views of a sequence of strings.
pub open spec fn strs(v: Seq<String>) -> Seq<Seq<char>> {
    v.map_values(|s: String| s@)
}

/// Strictly increasing: sorted and free of duplicates.
pub open spec fn strictly_sorted(v: Seq<Seq<char>>) -> bool {
    forall|i: int, j: int| 0 <= i < j < v.len() ==> str_lt(#[trigger] v[i], #[trigger] v[j])
}

pub proof fn lemma_str_lt_irreflexive(a: Seq<char>)
    ensures
        !str_lt(a, a),
    decreases a.len(),
{
    if a.len() > 0 {
        lemma_str_lt_irreflexive(a.drop_first());
    }
}

pub proof fn lemma_str_lt_transitive(a: Seq<char>, b: Seq<char>, c: Seq<char>)
    requires
        str_lt(a, b),
        str_lt(b, c),
    ensures
        str_lt(a, c),
    decreases a.len(),
{
    if a.len() > 0 && b.len() > 0 && c.len() > 0 {
        if a[0] == b[0] && b[0] == c[0] {
            lemma_str_lt_transitive(a.drop_first(), b.drop_first(), c.drop_first());
        }
    }
}

pub proof fn lemma_str_lt_total(a: Seq<char>, b: Seq<char>)
    ensures
        a == b || str_lt(a, b) || str_lt(b, a),
    decreases a.len(),
{
    if a.len() > 0 && b.len() > 0 {
        if a[0] == b[0] {
            lemma_str_lt_total(a.drop_first(), b.drop_first());
            if a.drop_first() == b.drop_first() {
                assert(a == seq![a[0]] + a.drop_first());
                assert(b == seq![b[0]] + b.drop_first());
            }
        }
    } else if a.len() == 0 && b.len() == 0 {
        assert(a == b);
    }
}

/// Compares two names: negative, zero or positive as `a` comes before, equals or follows `b`.
pub fn compare_str(a: &str, b: &str) -> (r: i8)
    ensures
        r < 0 <==> str_lt(a@, b@),
        r == 0 <==> a@ == b@,
        r > 0 <==> str_lt(b@, a@),
{
    proof {
        lemma_str_lt_irreflexive(a@);
    }
    let n = a.unicode_len();
    let m = b.unicode_len();
    let mut i: usize = 0;
    assert(a@.skip(0) == a@ && b@.skip(0) == b@);
    while i < n && i < m
        invariant
            n == a@.len(),
            m == b@.len(),
            i <= n,
            i <= m,
            a@.subrange(0, i as int) == b@.subrange(0, i as int),
            str_lt(a@, b@) == str_lt(a@.skip(i as int), b@.skip(i as int)),
            str_lt(b@, a@) == str_lt(b@.skip(i as int), a@.skip(i as int)),
        decreases n - i,
    {
        let x = a.get_char(i);
        let y = b.get_char(i);
        assert(a@.skip(i as int)[0] == x);
        assert(b@.skip(i as int)[0] == y);
        if x != y {
            assert(a@[i as int] != b@[i as int]);
            if x < y {
                return -1;
            } else {
                return 1;
            }
        }
        assert(a@.skip(i as int).drop_first() == a@.skip(i + 1));
        assert(b@.skip(i as int).drop_first() == b@.skip(i + 1));
        assert(a@.subrange(0, i + 1) == a@.subrange(0, i as int).push(x));
        assert(b@.subrange(0, i + 1) == b@.subrange(0, i as int).push(y));
        i = i + 1;
    }
    if i == n && i == m {
        assert(a@ == a@.subrange(0, i as int));
        assert(b@ == b@.subrange(0, i as int));
        0
    } else if i == n {
        assert(a@ != b@);
        -1
    } else {
        assert(a@ != b@) by {
            assert(a@.len() != b@.len());
        }
        1
    }
}

/// Position at which `s` stands or would stand in a strictly sorted `v`.
pub fn find_sorted(v: &Vec<String>, s: &str) -> (r: (usize, bool))
    requires
        strictly_sorted(strs(v@)),
    ensures
        r.0 <= v@.len(),
        r.1 <==> strs(v@).contains(s@),
        r.1 ==> v@[r.0 as int]@ == s@,
        forall|i: int| 0 <= i < r.0 ==> str_lt(#[trigger] strs(v@)[i], s@),
        !r.1 ==> forall|i: int| r.0 <= i < v@.len() ==> str_lt(s@, #[trigger] strs(v@)[i]),
{
    let mut i: usize = 0;
    while i < v.len()
        invariant
            i <= v@.len(),
            strictly_sorted(strs(v@)),
            forall|k: int| 0 <= k < i ==> str_lt(#[trigger] strs(v@)[k], s@),
        decreases v@.len() - i,
    {
        let c = compare_str(v[i].as_str(), s);
        if c == 0 {
            proof {
                assert(strs(v@)[i as int] == s@);
            }
            return (i, true);
        }
        if c > 0 {
            proof {
                assert forall|k: int| i <= k < v@.len() implies str_lt(s@, #[trigger] strs(v@)[k]) by {
                    if k > i {
                        lemma_str_lt_transitive(s@, strs(v@)[i as int], strs(v@)[k]);
                    }
                }
                assert forall|k: int| 0 <= k < v@.len() implies strs(v@)[k] != s@ by {
                    if k < i {
                        lemma_str_lt_irreflexive(s@);
                    } else {
                        lemma_str_lt_irreflexive(s@);
                    }
                }
            }
            return (i, false);
        }
        i = i + 1;
    }
    proof {
        assert forall|k: int| 0 <= k < v@.len() implies strs(v@)[k] != s@ by {
            lemma_str_lt_irreflexive(s@);
        }
    }
    (i, false)
}

/// Adds a name to a strictly sorted set of names.
pub fn insert_sorted(v: &mut Vec<String>, s: String)
    requires
        strictly_sorted(strs(old(v)@)),
    ensures
        strictly_sorted(strs(final(v)@)),
        strs(final(v)@).to_set() == strs(old(v)@).to_set().insert(s@),
{
    let (pos, found) = find_sorted(v, s.as_str());
    if !found {
        let ghost sv = s@;
        v.insert(pos, s);
        proof {
            let o = strs(old(v)@);
            let n = strs(v@);
            assert(n == o.insert(pos as int, sv));
            assert forall|i: int, j: int| 0 <= i < j < n.len() implies str_lt(
                #[trigger] n[i],
                #[trigger] n[j],
            ) by {
                if j < pos {
                } else if i > pos {
                    assert(n[i] == o[i - 1] && n[j] == o[j - 1]);
                } else if i == pos {
                    assert(n[j] == o[j - 1]);
                } else if j == pos {
                } else {
                    assert(n[j] == o[j - 1]);
                }
            }
            assert(n.to_set() =~= o.to_set().insert(sv)) by {
                assert forall|x| n.to_set().contains(x) implies o.to_set().insert(sv).contains(x) by {
                    let k = choose|k: int| 0 <= k < n.len() && n[k] == x;
                    if k < pos {
                        assert(o[k] == x);
                    } else if k > pos {
                        assert(o[k - 1] == x);
                    }
                }
                assert forall|x| o.to_set().insert(sv).contains(x) implies n.to_set().contains(x) by {
                    if x == sv {
                        assert(n[pos as int] == x);
                    } else {
                        let k = choose|k: int| 0 <= k < o.len() && o[k] == x;
                        if k < pos {
                            assert(n[k] == x);
                        } else {
                            assert(n[k + 1] == x);
                        }
                    }
                }
            }
        }
    } else {
        proof {
            assert(strs(v@).to_set().contains(s@));
            assert(strs(v@).to_set() =~= strs(v@).to_set().insert(s@));
        }
    }
}

/// Strict lexicographic order on sequences of names.
pub open spec fn strs_lt(a: Seq<Seq<char>>, b: Seq<Seq<char>>) -> bool
    decreases a.len(),
{
    if a.len() == 0 {
        b.len() > 0
    } else if b.len() == 0 {
        false
    } else if a[0] != b[0] {
        str_lt(a[0], b[0])
    } else {
        strs_lt(a.drop_first(), b.drop_first())
    }
}

/// `x` is sorted strictly increasing by `lt`.
pub open spec fn sorted_by<T>(x: Seq<T>, lt: spec_fn(T, T) -> bool) -> bool {
    forall|i: int, j: int| 0 <= i < j < x.len() ==> lt(#[trigger] x[i], #[trigger] x[j])
}

/// `lt` is a strict partial order.
pub open spec fn strict_order<T>(lt: spec_fn(T, T) -> bool) -> bool {
    &&& forall|x: T| !#[trigger] lt(x, x)
    &&& forall|x: T, y: T, z: T| #[trigger] lt(x, y) && #[trigger] lt(y, z) ==> lt(x, z)
}

pub proof fn lemma_strs_lt_irreflexive(a: Seq<Seq<char>>)
    ensures
        !strs_lt(a, a),
    decreases a.len(),
{
    if a.len() > 0 {
        lemma_strs_lt_irreflexive(a.drop_first());
    }
}

pub proof fn lemma_strs_lt_transitive(a: Seq<Seq<char>>, b: Seq<Seq<char>>, c: Seq<Seq<char>>)
    requires
        strs_lt(a, b),
        strs_lt(b, c),
    ensures
        strs_lt(a, c),
    decreases a.len(),
{
    if a.len() > 0 && b.len() > 0 && c.len() > 0 {
        if a[0] == b[0] && b[0] == c[0] {
            lemma_strs_lt_transitive(a.drop_first(), b.drop_first(), c.drop_first());
        } else if a[0] == b[0] {
        } else if b[0] == c[0] {
        } else {
            lemma_str_lt_transitive(a[0], b[0], c[0]);
            if a[0] == c[0] {
                lemma_str_lt_irreflexive(a[0]);
                lemma_str_lt_transitive(b[0], c[0], b[0]);
                lemma_str_lt_irreflexive(b[0]);
            }
        }
    }
}

pub proof fn lemma_str_lt_strict_order()
    ensures
        strict_order(|x: Seq<char>, y: Seq<char>| str_lt(x, y)),
{
    assert forall|x: Seq<char>| !str_lt(x, x) by {
        lemma_str_lt_irreflexive(x);
    }
    assert forall|x: Seq<char>, y: Seq<char>, z: Seq<char>| str_lt(x, y) && str_lt(y, z) implies str_lt(
        x,
        z,
    ) by {
        lemma_str_lt_transitive(x, y, z);
    }
}

/// Two sequences sorted strictly increasing by the same order and holding the same
/// elements are the same sequence.
pub proof fn lemma_sorted_unique<T>(a: Seq<T>, b: Seq<T>, lt: spec_fn(T, T) -> bool)
    requires
        strict_order(lt),
        sorted_by(a, lt),
        sorted_by(b, lt),
        a.to_set() == b.to_set(),
    ensures
        a == b,
    decreases a.len(),
{
    if a.len() == 0 {
        if b.len() > 0 {
            assert(b.to_set().contains(b[0]));
        }
        assert(a =~= b);
    } else {
        assert(a.to_set().contains(a[0]));
        if b.len() == 0 {
            assert(false);
        }
        assert(b.to_set().contains(b[0]));
        let ka = choose|k: int| 0 <= k < a.len() && a[k] == b[0];
        let kb = choose|k: int| 0 <= k < b.len() && b[k] == a[0];
        if a[0] != b[0] {
            assert(ka > 0 && kb > 0);
            assert(lt(a[0], a[ka]));
            assert(lt(b[0], b[kb]));
            assert(false);
        }
        let a1 = a.drop_first();
        let b1 = b.drop_first();
        assert forall|x: T| a1.to_set().contains(x) <==> b1.to_set().contains(x) by {
            if a1.to_set().contains(x) {
                let k = choose|k: int| 0 <= k < a1.len() && a1[k] == x;
                assert(lt(a[0], a[k + 1]));
                assert(a.to_set().contains(x));
                let m = choose|m: int| 0 <= m < b.len() && b[m] == x;
                if m == 0 {
                    assert(false);
                }
                assert(b1[m - 1] == x);
            }
            if b1.to_set().contains(x) {
                let k = choose|k: int| 0 <= k < b1.len() && b1[k] == x;
                assert(lt(b[0], b[k + 1]));
                assert(b.to_set().contains(x));
                let m = choose|m: int| 0 <= m < a.len() && a[m] == x;
                if m == 0 {
                    assert(false);
                }
                assert(a1[m - 1] == x);
            }
        }
        assert(a1.to_set() =~= b1.to_set());
        lemma_sorted_unique(a1, b1, lt);
        assert(a == seq![a[0]] + a1);
        assert(b == seq![b[0]] + b1);
    }
}

/// Compares two sequences of names lexicographically.
pub fn compare_strs(a: &Vec<String>, b: &Vec<String>) -> (r: i8)
    ensures
        r < 0 <==> strs_lt(strs(a@), strs(b@)),
        r == 0 <==> strs(a@) == strs(b@),
        r > 0 <==> strs_lt(strs(b@), strs(a@)),
{
    let ghost sa = strs(a@);
    let ghost sb = strs(b@);
    proof {
        lemma_strs_lt_irreflexive(sa);
    }
    let n = a.len();
    let m = b.len();
    let mut i: usize = 0;
    assert(sa.skip(0) == sa && sb.skip(0) == sb);
    while i < n && i < m
        invariant
            n == sa.len() == a@.len(),
            m == sb.len() == b@.len(),
            sa == strs(a@),
            sb == strs(b@),
            i <= n,
            i <= m,
            sa.subrange(0, i as int) == sb.subrange(0, i as int),
            strs_lt(sa, sb) == strs_lt(sa.skip(i as int), sb.skip(i as int)),
            strs_lt(sb, sa) == strs_lt(sb.skip(i as int), sa.skip(i as int)),
        decreases n - i,
    {
        let c = compare_str(a[i].as_str(), b[i].as_str());
        assert(sa.skip(i as int)[0] == sa[i as int]);
        assert(sb.skip(i as int)[0] == sb[i as int]);
        if c != 0 {
            if c < 0 {
                return -1;
            } else {
                return 1;
            }
        }
        assert(sa.skip(i as int).drop_first() == sa.skip(i + 1));
        assert(sb.skip(i as int).drop_first() == sb.skip(i + 1));
        assert(sa.subrange(0, i + 1) == sa.subrange(0, i as int).push(sa[i as int]));
        assert(sb.subrange(0, i + 1) == sb.subrange(0, i as int).push(sb[i as int]));
        i = i + 1;
    }
    if i == n && i == m {
        assert(sa == sa.subrange(0, i as int));
        assert(sb == sb.subrange(0, i as int));
        0
    } else if i == n {
        assert(sa != sb);
        -1
    } else {
        assert(sa != sb) by {
            assert(sa.len() != sb.len());
        }
        1
    }
}

/// A strictly sorted sequence of names holding exactly the names of `v`.
pub fn sorted_set(v: &Vec<String>) -> (r: Vec<String>)
    ensures
        strictly_sorted(strs(r@)),
        strs(r@).to_set() == strs(v@).to_set(),
{
    let mut r: Vec<String> = Vec::new();
    let mut i: usize = 0;
    while i < v.len()
        invariant
            i <= v@.len(),
            strictly_sorted(strs(r@)),
            strs(r@).to_set() == strs(v@.subrange(0, i as int)).to_set(),
        decreases v@.len() - i,
    {
        insert_sorted(&mut r, v[i].clone());
        proof {
            assert(strs(v@.subrange(0, i + 1)) == strs(v@.subrange(0, i as int)).push(v@[i as int]@));
            strs(v@.subrange(0, i as int)).lemma_push_to_set_commute(v@[i as int]@);
        }
        i = i + 1;
    }
    assert(v@.subrange(0, i as int) == v@);
    r
}

/// Inserting `x` where it belongs keeps a sequence sorted and adds `x` to its elements.
pub proof fn lemma_insert_sorted_by<T>(o: Seq<T>, pos: int, x: T, lt: spec_fn(T, T) -> bool)
    requires
        sorted_by(o, lt),
        0 <= pos <= o.len(),
        forall|i: int| 0 <= i < pos ==> lt(#[trigger] o[i], x),
        forall|i: int| pos <= i < o.len() ==> lt(x, #[trigger] o[i]),
    ensures
        sorted_by(o.insert(pos, x), lt),
        o.insert(pos, x).to_set() == o.to_set().insert(x),
{
    let n = o.insert(pos, x);
    assert forall|i: int, j: int| 0 <= i < j < n.len() implies lt(#[trigger] n[i], #[trigger] n[j]) by {
        if j < pos {
        } else if i > pos {
            assert(n[i] == o[i - 1] && n[j] == o[j - 1]);
        } else if i == pos {
            assert(n[j] == o[j - 1]);
        } else if j == pos {
        } else {
            assert(n[j] == o[j - 1]);
        }
    }
    assert forall|y| n.to_set().contains(y) implies o.to_set().insert(x).contains(y) by {
        let k = choose|k: int| 0 <= k < n.len() && n[k] == y;
        if k < pos {
            assert(o[k] == y);
        } else if k > pos {
            assert(o[k - 1] == y);
        }
    }
    assert forall|y| o.to_set().insert(x).contains(y) implies n.to_set().contains(y) by {
        if y == x {
            assert(n[pos] == y);
        } else {
            let k = choose|k: int| 0 <= k < o.len() && o[k] == y;
            if k < pos {
                assert(n[k] == y);
            } else {
                assert(n[k + 1] == y);
            }
        }
    }
    assert(n.to_set() =~= o.to_set().insert(x));
}

} // verus!
