//! Removal of leading and trailing whitespace from a string.

use vstd::prelude::*;
use crate::whitespace::{is_whitespace, is_ws};
use vstd::string::StrSliceExecFns;

verus! {

/// The number of leading whitespace characters of `s`.
pub open spec fn trim_lo(s: Seq<char>) -> int
    decreases s.len(),
{
    if s.len() > 0 && is_ws(s[0]) {
        1 + trim_lo(s.drop_first())
    } else {
        0
    }
}

/// The position just after the last non-whitespace character of `s`
/// (0 when `s` is all whitespace).
pub open spec fn trim_hi(s: Seq<char>) -> int
    decreases s.len(),
{
    if s.len() > 0 && is_ws(s.last()) {
        trim_hi(s.drop_last())
    } else {
        s.len() as int
    }
}

/// The text of `s` with leading and trailing whitespace removed;
/// internal whitespace is preserved.
pub open spec fn trim_spec(s: Seq<char>) -> Seq<char> {
    if trim_lo(s) <= trim_hi(s) {
        s.subrange(trim_lo(s), trim_hi(s))
    } else {
        Seq::empty()
    }
}

/// `trim_lo` is the least index at which a non-whitespace character stands.
pub proof fn lemma_trim_lo(s: Seq<char>)
    ensures
        0 <= trim_lo(s) <= s.len(),
        forall|k: int| 0 <= k < trim_lo(s) ==> is_ws(s[k]),
        trim_lo(s) < s.len() ==> !is_ws(s[trim_lo(s)]),
    decreases s.len(),
{
    if s.len() > 0 && is_ws(s[0]) {
        lemma_trim_lo(s.drop_first());
        assert forall|k: int| 0 <= k < trim_lo(s) implies is_ws(s[k]) by {
            if k > 0 {
                assert(s.drop_first()[k - 1] == s[k]);
            }
        }
        if trim_lo(s) < s.len() {
            assert(s.drop_first()[trim_lo(s) - 1] == s[trim_lo(s)]);
        }
    }
}

/// `trim_hi` is the position just after the last non-whitespace character.
pub proof fn lemma_trim_hi(s: Seq<char>)
    ensures
        0 <= trim_hi(s) <= s.len(),
        forall|k: int| trim_hi(s) <= k < s.len() ==> is_ws(s[k]),
        trim_hi(s) > 0 ==> !is_ws(s[trim_hi(s) - 1]),
    decreases s.len(),
{
    if s.len() > 0 && is_ws(s.last()) {
        lemma_trim_hi(s.drop_last());
        assert forall|k: int| trim_hi(s) <= k < s.len() implies is_ws(s[k]) by {
            if k < s.len() - 1 {
                assert(s.drop_last()[k] == s[k]);
            }
        }
        if trim_hi(s) > 0 {
            assert(s.drop_last()[trim_hi(s) - 1] == s[trim_hi(s) - 1]);
        }
    }
}

/// A trimmed text never starts or ends in a whitespace character.
pub proof fn lemma_trim_ends(s: Seq<char>)
    ensures
        trim_spec(s).len() > 0 ==> !is_ws(trim_spec(s).first()),
        trim_spec(s).len() > 0 ==> !is_ws(trim_spec(s).last()),
{
    lemma_trim_lo(s);
    lemma_trim_hi(s);
}

/// Returns `s` with leading and trailing whitespace removed.
pub fn trim_str<'a>(s: &'a str) -> (r: &'a str)
    ensures
        r@ == trim_spec(s@),
{
    proof {
        lemma_trim_lo(s@);
        lemma_trim_hi(s@);
    }
    let n: usize = s.unicode_len();
    let mut lo: usize = 0;
    while lo < n && is_whitespace(s.get_char(lo))
        invariant
            n == s@.len(),
            0 <= lo <= n,
            forall|k: int| 0 <= k < lo ==> is_ws(s@[k]),
        decreases n - lo,
    {
        lo = lo + 1;
    }
    let mut hi: usize = n;
    while hi > lo && is_whitespace(s.get_char(hi - 1))
        invariant
            n == s@.len(),
            lo <= hi <= n,
            forall|k: int| hi <= k < n ==> is_ws(s@[k]),
        decreases hi,
    {
        hi = hi - 1;
    }
    let r = s.substring_char(lo, hi);
    proof {
        if lo == n {
            assert(trim_lo(s@) == n as int);
            assert(r@ =~= trim_spec(s@));
        } else {
            assert(trim_lo(s@) == lo as int);
            assert(hi > lo);
            assert(trim_hi(s@) == hi as int);
            assert(r@ =~= trim_spec(s@));
        }
    }
    r
}

} // verus!
