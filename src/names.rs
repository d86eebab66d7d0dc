//! Identifiers for the graph description language.
use vstd::prelude::*;

verus! {

/// What one character of a name becomes in an identifier.
pub open spec fn escape_char(c: char) -> Seq<char> {
    if c == '-' {
        seq!['_', 'd', 'a', 's', 'h', '_']
    } else if c == '+' {
        seq!['_', 'p', 'l', 'u', 's', '_']
    } else {
        seq![c]
    }
}

/// The identifier of a name: each hyphen and each plus sign is spelled out.
pub open spec fn escaped(s: Seq<char>) -> Seq<char>
    decreases s.len(),
{
    if s.len() == 0 {
        Seq::empty()
    } else {
        escaped(s.drop_last()) + escape_char(s.last())
    }
}

/// Turns a package or file name into an identifier of the graph language.
pub fn escape_name_for_graphviz(name: &str) -> (r: String)
    ensures
        r@ == escaped(name@),
{
    let n = name.unicode_len();
    let mut r = String::new();
    let mut i: usize = 0;
    while i < n
        invariant
            i <= n,
            n == name@.len(),
            r@ == escaped(name@.subrange(0, i as int)),
        decreases n - i,
    {
        let c = name.get_char(i);
        if c == '-' {
            proof {
                reveal_strlit("_dash_");
            }
            r.append("_dash_");
        } else if c == '+' {
            proof {
                reveal_strlit("_plus_");
            }
            r.append("_plus_");
        } else {
            r.append(name.substring_char(i, i + 1));
        }
        assert(name@.subrange(0, i + 1).drop_last() == name@.subrange(0, i as int));
        i = i + 1;
    }
    assert(name@.subrange(0, n as int) == name@);
    r
}

/// An identifier holds no hyphen and no plus sign, whatever the name.
pub proof fn lemma_escaped_has_no_dash_or_plus(s: Seq<char>)
    ensures
        !escaped(s).contains('-'),
        !escaped(s).contains('+'),
    decreases s.len(),
{
    if s.len() > 0 {
        lemma_escaped_has_no_dash_or_plus(s.drop_last());
        let a = escaped(s.drop_last());
        let b = escape_char(s.last());
        assert forall|i: int| 0 <= i < (a + b).len() implies (a + b)[i] != '-' && (a + b)[i]
            != '+' by {
            if i < a.len() {
                assert(a[i] == (a + b)[i]);
                assert(!a.contains('-'));
            } else {
                assert(b[i - a.len()] == (a + b)[i]);
            }
        }
    }
}

} // verus!
