//! Character-level helpers: string-slice equality, extracting the
//! character sequence of a string, and whitespace-separated token search
//! as used by the `~=` attribute selector.

use vstd::prelude::*;
use vstd::string::StrSliceExecFns;

verus! {

/// Whether two string slices hold the same character sequence.
pub(crate) fn str_eq(a: &str, b: &str) -> (r: bool)
    ensures
        r == (a@ == b@),
{
    let n = a.unicode_len();
    let m = b.unicode_len();
    if n != m {
        return false;
    }
    let mut i: usize = 0;
    while i < n
        invariant
            n == a@.len(),
            n == b@.len(),
            i <= n,
            forall|j: int| 0 <= j < i ==> a@[j] == b@[j],
        decreases n - i,
    {
        if a.get_char(i) != b.get_char(i) {
            assert(a@[i as int] != b@[i as int]);
            return false;
        }
        i = i + 1;
    }
    proof {
        assert(a@ =~= b@);
    }
    true
}

/// The characters of a string slice, in order.
pub(crate) fn chars_vec(s: &str) -> (v: Vec<char>)
    ensures
        v@ == s@,
{
    let n = s.unicode_len();
    let mut v: Vec<char> = Vec::new();
    let mut i: usize = 0;
    while i < n
        invariant
            n == s@.len(),
            i <= n,
            v@ == s@.subrange(0, i as int),
        decreases n - i,
    {
        v.push(s.get_char(i));
        assert(v@ =~= s@.subrange(0, i + 1 as int));
        i = i + 1;
    }
    assert(v@ =~= s@);
    v
}

/// The five ASCII whitespace characters.
pub open spec fn spec_is_ascii_whitespace(c: char) -> bool {
    c == ' ' || c == '\t' || c == '\n' || c == '\u{000C}' || c == '\r'
}

/// Whether `c` is ASCII whitespace.
pub fn is_ascii_whitespace(c: char) -> (r: bool)
    ensures
        r == spec_is_ascii_whitespace(c),
{
    c == ' ' || c == '\t' || c == '\n' || c == '\u{000C}' || c == '\r'
}

/// `t` occurs in `s` as a whole whitespace-delimited word starting at `i`.
pub open spec fn token_at(s: Seq<char>, t: Seq<char>, i: int) -> bool {
    &&& 0 <= i
    &&& i + t.len() <= s.len()
    &&& s.subrange(i, i + t.len()) == t
    &&& (i == 0 || spec_is_ascii_whitespace(s[i - 1]))
    &&& (i + t.len() == s.len() || spec_is_ascii_whitespace(s[i + t.len()]))
}

/// `t` is one of the whitespace-separated tokens of `s`: it is a
/// non-empty run free of whitespace, and it appears in `s` bounded by
/// whitespace or the ends of the string.
pub open spec fn has_token(s: Seq<char>, t: Seq<char>) -> bool {
    &&& t.len() > 0
    &&& (forall|k: int| 0 <= k < t.len() ==> !spec_is_ascii_whitespace(t[k]))
    &&& exists|i: int| token_at(s, t, i)
}

/// Whether `token` equals one of the whitespace-separated tokens of `text`.
pub fn contains_token(text: &str, token: &str) -> (r: bool)
    ensures
        r == has_token(text@, token@),
{
    let s = chars_vec(text);
    let t = chars_vec(token);
    if t.len() == 0 {
        return false;
    }
    let mut k: usize = 0;
    while k < t.len()
        invariant
            t@ == token@,
            k <= t@.len(),
            forall|j: int| 0 <= j < k ==> !spec_is_ascii_whitespace(t@[j]),
        decreases t@.len() - k,
    {
        if is_ascii_whitespace(t[k]) {
            return false;
        }
        k = k + 1;
    }
    let sn = s.len();
    let tn = t.len();
    if tn > sn {
        assert forall|i: int| !token_at(text@, token@, i) by {
            assert(token@.len() > text@.len());
        }
        return false;
    }
    let last_start = sn - tn;
    let mut i: usize = 0;
    while i <= last_start
        invariant
            s@ == text@,
            t@ == token@,
            sn == s@.len(),
            tn == t@.len(),
            t@.len() > 0,
            t@.len() <= s@.len(),
            last_start == sn - tn,
            i <= last_start + 1,
            forall|j: int| 0 <= j < t@.len() ==> !spec_is_ascii_whitespace(t@[j]),
            forall|p: int| 0 <= p < i ==> !token_at(text@, token@, p),
        decreases last_start + 1 - i,
    {
        let left_ok = i == 0 || is_ascii_whitespace(s[i - 1]);
        let right_ok = i + tn == sn || is_ascii_whitespace(s[i + tn]);
        if left_ok && right_ok {
            let mut j: usize = 0;
            let mut all_eq = true;
            while j < tn
                invariant
                    s@ == text@,
                    t@ == token@,
                    sn == s@.len(),
                    tn == t@.len(),
                    i + tn <= sn,
                    j <= tn,
                    all_eq <==> (forall|q: int| 0 <= q < j ==> s@[i + q] == t@[q]),
                decreases tn - j,
            {
                if !(s[i + j] == t[j]) {
                    all_eq = false;
                    assert(s@[i + j] != t@[j as int]);
                    j = tn;
                } else {
                    j = j + 1;
                }
            }
            if all_eq {
                assert(s@.subrange(i as int, i + t@.len()) =~= t@);
                assert(token_at(text@, token@, i as int));
                return true;
            } else {
                assert(!token_at(text@, token@, i as int)) by {
                    let q = choose|q: int| 0 <= q < t@.len() && s@[i + q] != t@[q];
                    if s@.subrange(i as int, i + t@.len()) == t@ {
                        assert(s@.subrange(i as int, i + t@.len())[q] == t@[q]);
                    }
                }
            }
        } else {
            assert(!token_at(text@, token@, i as int));
        }
        i = i + 1;
    }
    assert forall|p: int| !token_at(text@, token@, p) by {
        if 0 <= p <= last_start {
            assert(!token_at(text@, token@, p));
        } else if p > last_start {
            assert(p + token@.len() > text@.len());
        }
    }
    false
}

} // verus!
