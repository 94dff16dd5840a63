use vstd::prelude::*;
use crate::text::{chars_of, string_of};

verus! {

/// `s` with one layer of matching surrounding quotes removed.
pub open spec fn unquote_spec(s: Seq<char>) -> Seq<char> {
    if s.len() >= 2 && ((s[0] == '"' && s.last() == '"') || (s[0] == '\'' && s.last() == '\'')) {
        s.subrange(1, s.len() - 1)
    } else {
        s
    }
}

/// Strips one pair of surrounding `"` or `'` quotes; any other input is
/// returned unchanged.
pub fn unquote(value: &str) -> (r: String)
    ensures
        r@ == unquote_spec(value@),
{
    let cs = chars_of(value);
    let n = cs.len();
    if n >= 2 && ((cs[0] == '"' && cs[n - 1] == '"') || (cs[0] == '\'' && cs[n - 1] == '\'')) {
        let mut inner: Vec<char> = Vec::new();
        let mut i: usize = 1;
        while i < n - 1
            invariant
                1 <= i <= n - 1,
                n == cs@.len(),
                n >= 2,
                inner@ == cs@.subrange(1, i as int),
            decreases n - 1 - i,
        {
            inner.push(cs[i]);
            i += 1;
            assert(inner@ =~= cs@.subrange(1, i as int));
        }
        string_of(&inner)
    } else {
        string_of(&cs)
    }
}

} // verus!
