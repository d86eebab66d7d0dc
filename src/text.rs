//! Small facts about lines of text: prefixes, substrings and fields.
use vstd::prelude::*;

verus! {

pub open spec fn has_prefix(s: Seq<char>, p: Seq<char>) -> bool {
    p.len() <= s.len() && s.subrange(0, p.len() as int) == p
}

pub open spec fn occurs_at(s: Seq<char>, p: Seq<char>, i: int) -> bool {
    0 <= i && i + p.len() <= s.len() && s.subrange(i, i + p.len()) == p
}

pub open spec fn contains_str(s: Seq<char>, p: Seq<char>) -> bool {
    exists|i: int| occurs_at(s, p, i)
}

/// Index of the last `c` in `s`, or -1.
pub open spec fn last_index(s: Seq<char>, c: char) -> int
    decreases s.len(),
{
    if s.len() == 0 {
        -1
    } else if s.last() == c {
        s.len() - 1
    } else {
        last_index(s.drop_last(), c)
    }
}

/// The characters of `s` before its first `c` (all of `s` if there is none).
pub open spec fn take_until(s: Seq<char>, c: char) -> Seq<char>
    decreases s.len(),
{
    if s.len() == 0 {
        s
    } else if s[0] == c {
        Seq::empty()
    } else {
        seq![s[0]] + take_until(s.drop_first(), c)
    }
}

/// The characters of `s` after its first `c`, if there is one.
pub open spec fn after_first(s: Seq<char>, c: char) -> Option<Seq<char>>
    decreases s.len(),
{
    if s.len() == 0 {
        None
    } else if s[0] == c {
        Some(s.drop_first())
    } else {
        after_first(s.drop_first(), c)
    }
}

/// Field `n` of `s` split at every space (fields may be empty).
pub open spec fn nth_field(s: Seq<char>, n: nat) -> Option<Seq<char>>
    decreases n,
{
    if n == 0 {
        Some(take_until(s, ' '))
    } else {
        match after_first(s, ' ') {
            Some(rest) => nth_field(rest, (n - 1) as nat),
            None => None,
        }
    }
}

/// The last component of a slash-separated path.
pub open spec fn base_name(path: Seq<char>) -> Seq<char> {
    path.skip(last_index(path, '/') + 1)
}

/// What a line holds between its last `[` and the next `]`.
pub open spec fn bracket_value(line: Seq<char>) -> Seq<char> {
    take_until(line.skip(last_index(line, '[') + 1), ']')
}

proof fn lemma_last_index_bounds(s: Seq<char>, c: char)
    ensures
        -1 <= last_index(s, c) < s.len(),
        last_index(s, c) >= 0 ==> s[last_index(s, c)] == c,
        forall|k: int| last_index(s, c) < k < s.len() ==> s[k] != c,
    decreases s.len(),
{
    if s.len() > 0 && s.last() != c {
        lemma_last_index_bounds(s.drop_last(), c);
        assert forall|k: int| last_index(s, c) < k < s.len() implies s[k] != c by {
            if k < s.len() - 1 {
                assert(s.drop_last()[k] == s[k]);
            }
        }
    }
}

proof fn lemma_take_until_step(s: Seq<char>, c: char, i: int)
    requires
        0 <= i < s.len(),
    ensures
        take_until(s.skip(i), c) == if s[i] == c {
            Seq::<char>::empty()
        } else {
            seq![s[i]] + take_until(s.skip(i + 1), c)
        },
        after_first(s.skip(i), c) == if s[i] == c {
            Some(s.skip(i + 1))
        } else {
            after_first(s.skip(i + 1), c)
        },
{
    assert(s.skip(i).drop_first() == s.skip(i + 1));
}

/// Whether `s` starts with `p`.
pub fn starts_with(s: &str, p: &str) -> (r: bool)
    ensures
        r == has_prefix(s@, p@),
{
    matches_at(s, p, 0)
}

/// Whether `p` occurs in `s` at position `i`.
pub fn matches_at(s: &str, p: &str, i: usize) -> (r: bool)
    ensures
        r == occurs_at(s@, p@, i as int),
{
    let n = s.unicode_len();
    let m = p.unicode_len();
    if i > n || m > n - i {
        return false;
    }
    let mut k: usize = 0;
    while k < m
        invariant
            n == s@.len(),
            m == p@.len(),
            i + m <= n,
            k <= m,
            s@.subrange(i as int, i + k) == p@.subrange(0, k as int),
        decreases m - k,
    {
        if s.get_char(i + k) != p.get_char(k) {
            assert(s@.subrange(i as int, i + m)[k as int] != p@[k as int]);
            return false;
        }
        assert(s@.subrange(i as int, i + k + 1) == s@.subrange(i as int, i + k).push(s@[i + k]));
        assert(p@.subrange(0, k + 1) == p@.subrange(0, k as int).push(p@[k as int]));
        k = k + 1;
    }
    assert(p@.subrange(0, m as int) == p@);
    true
}

/// Whether `p` occurs anywhere in `s`.
pub fn contains(s: &str, p: &str) -> (r: bool)
    ensures
        r == contains_str(s@, p@),
{
    let n = s.unicode_len();
    let mut i: usize = 0;
    loop
        invariant
            n == s@.len(),
            i <= n,
            forall|k: int| 0 <= k < i ==> !occurs_at(s@, p@, k),
        decreases n - i,
    {
        if matches_at(s, p, i) {
            return true;
        }
        if i == n {
            assert forall|k: int| !occurs_at(s@, p@, k) by {
                if 0 <= k && k < i {
                }
            }
            return false;
        }
        i = i + 1;
    }
}

/// Index just after the last `c` of `s`, or 0 where there is none.
fn after_last(s: &str, c: char) -> (r: usize)
    ensures
        r as int == last_index(s@, c) + 1,
{
    proof {
        lemma_last_index_bounds(s@, c);
    }
    let n = s.unicode_len();
    let mut i: usize = n;
    assert(s@.subrange(0, n as int) == s@);
    while i > 0
        invariant
            i <= n == s@.len(),
            last_index(s@, c) == last_index(s@.subrange(0, i as int), c),
        decreases i,
    {
        let ghost t = s@.subrange(0, i as int);
        if s.get_char(i - 1) == c {
            return i;
        }
        assert(t.drop_last() == s@.subrange(0, i - 1));
        i = i - 1;
    }
    0
}

/// Index of the first `c` at or after `from`, or the length of `s`.
pub(crate) fn scan_to(s: &str, c: char, from: usize) -> (r: usize)
    requires
        from <= s@.len(),
    ensures
        from <= r <= s@.len(),
        take_until(s@.skip(from as int), c) == s@.subrange(from as int, r as int),
        r < s@.len() ==> after_first(s@.skip(from as int), c) == Some(s@.skip(r + 1)),
        r == s@.len() ==> after_first(s@.skip(from as int), c) == None::<Seq<char>>,
{
    let n = s.unicode_len();
    let mut j: usize = from;
    while j < n
        invariant
            from <= j <= n == s@.len(),
            take_until(s@.skip(from as int), c) == s@.subrange(from as int, j as int) + take_until(
                s@.skip(j as int),
                c,
            ),
            after_first(s@.skip(from as int), c) == after_first(s@.skip(j as int), c),
        decreases n - j,
    {
        proof {
            lemma_take_until_step(s@, c, j as int);
        }
        if s.get_char(j) == c {
            assert(s@.subrange(from as int, j as int) + Seq::<char>::empty() == s@.subrange(
                from as int,
                j as int,
            ));
            return j;
        }
        assert(s@.subrange(from as int, j + 1) == s@.subrange(from as int, j as int) + seq![
            s@[j as int],
        ]);
        j = j + 1;
    }
    assert(s@.skip(n as int).len() == 0);
    assert(s@.subrange(from as int, j as int) + Seq::<char>::empty() == s@.subrange(
        from as int,
        j as int,
    ));
    j
}

/// The last component of a slash-separated path.
pub fn base_name_of(path: &str) -> (r: String)
    ensures
        r@ == base_name(path@),
{
    let start = after_last(path, '/');
    proof {
        lemma_last_index_bounds(path@, '/');
    }
    String::from_str(path.substring_char(start, path.unicode_len()))
}

/// What a line holds between its last `[` and the next `]`.
pub fn bracket_value_of(line: &str) -> (r: String)
    ensures
        r@ == bracket_value(line@),
{
    proof {
        lemma_last_index_bounds(line@, '[');
    }
    let start = after_last(line, '[');
    let end = scan_to(line, ']', start);
    String::from_str(line.substring_char(start, end))
}

/// Field `n` of a line split at every space, if the line has that many fields.
pub fn field_of(line: &str, n: usize) -> (r: Option<String>)
    ensures
        r matches Some(f) ==> nth_field(line@, n as nat) == Some(f@),
        r is None ==> nth_field(line@, n as nat) is None,
{
    let mut start: usize = 0;
    let mut k: usize = 0;
    assert(line@.skip(0) == line@);
    while k < n
        invariant
            start <= line@.len(),
            k <= n,
            nth_field(line@, n as nat) == nth_field(line@.skip(start as int), (n - k) as nat),
        decreases n - k,
    {
        let end = scan_to(line, ' ', start);
        if end == line.unicode_len() {
            return None;
        }
        start = end + 1;
        k = k + 1;
    }
    let end = scan_to(line, ' ', start);
    Some(String::from_str(line.substring_char(start, end)))
}

} // verus!
