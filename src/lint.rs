//! Rules on the fields of a package spec file.
use vstd::prelude::*;
use crate::text::{contains, contains_str};

verus! {

/// A finding about the fields of a spec file.
#[derive(PartialEq, Eq, Structural, Clone, Copy, Debug)]
pub enum SpecIssue {
    /// There is no VER field.
    MissingVer,
    /// VER holds a dash.
    VerHasDash,
    /// VER holds an underscore.
    VerHasUnderscore,
    /// VER holds upper-case letters.
    VerHasUppercase,
    /// REL is zero.
    RelZero,
    /// REL is not a number.
    RelInvalid,
    /// There is no CHKUPDATE field (a warning).
    MissingChkupdate,
}

/// What lower-casing a string gives.
pub uninterp spec fn lower_of(s: Seq<char>) -> Seq<char>;

/// Relies on `str::to_lowercase`: the result depends on the characters alone.
#[verifier::external_body]
fn lowercase(s: &str) -> (r: String)
    ensures
        r@ == lower_of(s@),
{
    s.to_lowercase()
}

pub open spec fn is_digit(c: char) -> bool {
    '0' <= c <= '9'
}

/// The value of a sequence of decimal digits.
pub open spec fn digits_value(s: Seq<char>) -> nat
    decreases s.len(),
{
    if s.len() == 0 {
        0
    } else {
        digits_value(s.drop_last()) * 10 + ((s.last() as u32 - '0' as u32) as nat)
    }
}

/// The digits of a number in text: what follows one optional leading `+`.
pub open spec fn number_digits(s: Seq<char>) -> Seq<char> {
    if s.len() > 0 && s[0] == '+' {
        s.drop_first()
    } else {
        s
    }
}

/// The unsigned integer a text denotes, if it denotes one that fits in a `usize`:
/// an optional `+`, then one or more decimal digits.
pub open spec fn parsed_usize(s: Seq<char>) -> Option<nat> {
    let d = number_digits(s);
    if d.len() > 0 && (forall|i: int| 0 <= i < d.len() ==> is_digit(#[trigger] d[i])) && digits_value(d)
        <= usize::MAX {
        Some(digits_value(d))
    } else {
        None
    }
}

proof fn lemma_digits_value_grows(s: Seq<char>, i: int)
    requires
        0 <= i <= s.len(),
        forall|k: int| 0 <= k < s.len() ==> is_digit(#[trigger] s[k]),
    ensures
        digits_value(s.take(i)) <= digits_value(s),
    decreases s.len() - i,
{
    if i < s.len() {
        lemma_digits_value_grows(s, i + 1);
        assert(s.take(i + 1).drop_last() == s.take(i));
        assert(digits_value(s.take(i)) <= digits_value(s.take(i)) * 10) by (nonlinear_arith);
    } else {
        assert(s.take(i) == s);
    }
}

/// Reads an unsigned integer the way `str::parse::<usize>` does.
pub fn parse_usize(s: &str) -> (r: Option<usize>)
    ensures
        r matches Some(v) ==> parsed_usize(s@) == Some(v as nat),
        r is None ==> parsed_usize(s@) is None,
{
    let n = s.unicode_len();
    let mut start: usize = 0;
    if n > 0 && s.get_char(0) == '+' {
        start = 1;
    }
    let ghost d = number_digits(s@);
    assert(d == s@.skip(start as int));
    if start == n {
        return None;
    }
    let mut value: usize = 0;
    let mut i: usize = start;
    while i < n
        invariant
            n == s@.len(),
            start <= i <= n,
            d == s@.skip(start as int),
            d == number_digits(s@),
            forall|k: int| 0 <= k < i - start ==> is_digit(#[trigger] d[k]),
            value as nat == digits_value(d.take(i - start)),
        decreases n - i,
    {
        let c = s.get_char(i);
        let ghost t = d.take(i + 1 - start);
        assert(t.drop_last() == d.take(i - start));
        assert(t.last() == c);
        assert(d[i - start] == c);
        if !('0' <= c && c <= '9') {
            assert(!is_digit(d[i - start]));
            assert(!(forall|k: int| 0 <= k < d.len() ==> is_digit(#[trigger] d[k])));
            return None;
        }
        let digit = (c as u32 - '0' as u32) as usize;
        if value > (usize::MAX - digit) / 10 {
            proof {
                assert(value * 10 + digit > usize::MAX) by (nonlinear_arith)
                    requires
                        value > (usize::MAX - digit) / 10,
                        digit <= 9,
                ;
                assert(digits_value(t) == value * 10 + digit);
                if forall|k: int| 0 <= k < d.len() ==> is_digit(#[trigger] d[k]) {
                    lemma_digits_value_grows(d, i + 1 - start);
                }
            }
            return None;
        }
        proof {
            assert(value * 10 + digit <= usize::MAX) by (nonlinear_arith)
                requires
                    value <= (usize::MAX - digit) / 10,
                    digit <= 9,
            ;
        }
        value = value * 10 + digit;
        i = i + 1;
    }
    assert(d.take(n - start) == d);
    Some(value)
}

/// The findings about a version string, given its lower-cased form.
pub open spec fn version_issues_spec(ver: Seq<char>, lowered: Seq<char>) -> Seq<SpecIssue> {
    (if contains_str(ver, "-"@) { seq![SpecIssue::VerHasDash] } else { Seq::empty() })
        + (if contains_str(ver, "_"@) { seq![SpecIssue::VerHasUnderscore] } else { Seq::empty() })
        + (if lowered != ver { seq![SpecIssue::VerHasUppercase] } else { Seq::empty() })
}

/// Checks a version string: no dash, no underscore, nothing that lower-casing changes.
pub fn version_issues(ver: &str, lowered: &str) -> (r: Vec<SpecIssue>)
    ensures
        r@ == version_issues_spec(ver@, lowered@),
{
    let mut r: Vec<SpecIssue> = Vec::new();
    if contains(ver, "-") {
        r.push(SpecIssue::VerHasDash);
    }
    if contains(ver, "_") {
        r.push(SpecIssue::VerHasUnderscore);
    }
    if crate::order::compare_str(lowered, ver) != 0 {
        r.push(SpecIssue::VerHasUppercase);
    }
    assert(r@ =~= version_issues_spec(ver@, lowered@));
    r
}

/// The findings about the fields of a spec file, given the lower-cased version.
pub open spec fn spec_issues(
    ver: Option<Seq<char>>,
    rel: Option<Seq<char>>,
    has_chkupdate: bool,
) -> Seq<SpecIssue> {
    (match ver {
        Some(v) => version_issues_spec(v, lower_of(v)),
        None => seq![SpecIssue::MissingVer],
    }) + (match rel {
        Some(x) => match parsed_usize(x) {
            Some(v) => if v == 0 {
                seq![SpecIssue::RelZero]
            } else {
                Seq::empty()
            },
            None => seq![SpecIssue::RelInvalid],
        },
        None => Seq::empty(),
    }) + (if has_chkupdate { Seq::empty() } else { seq![SpecIssue::MissingChkupdate] })
}

/// Checks the VER, REL and CHKUPDATE fields of a spec file.
pub fn lint_spec(ver: Option<&str>, rel: Option<&str>, has_chkupdate: bool) -> (r: Vec<SpecIssue>)
    ensures
        r@ == spec_issues(
            match ver {
                Some(v) => Some(v@),
                None => None,
            },
            match rel {
                Some(x) => Some(x@),
                None => None,
            },
            has_chkupdate,
        ),
{
    let mut r: Vec<SpecIssue> = match ver {
        Some(v) => {
            let lowered = lowercase(v);
            version_issues(v, lowered.as_str())
        },
        None => vec![SpecIssue::MissingVer],
    };
    let ghost a = r@;
    match rel {
        Some(x) => match parse_usize(x) {
            Some(0) => r.push(SpecIssue::RelZero),
            Some(_) => {},
            None => r.push(SpecIssue::RelInvalid),
        },
        None => {},
    }
    let ghost b = r@;
    if !has_chkupdate {
        r.push(SpecIssue::MissingChkupdate);
    }
    proof {
        let vv = match ver {
            Some(v) => Some(v@),
            None => None,
        };
        let rv = match rel {
            Some(x) => Some(x@),
            None => None,
        };
        assert(r@ =~= spec_issues(vv, rv, has_chkupdate));
    }
    r
}

} // verus!
