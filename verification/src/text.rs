//! Small helpers on strings.

use vstd::prelude::*;

verus! {

/// The longest name that [`is_identifier`] accepts.
pub const MAX_IDENTIFIER_LEN: usize = 63;

/// Whether `c` may stand in an identifier: an ASCII letter, an ASCII digit
/// or an underscore.
pub open spec fn is_identifier_char(c: char) -> bool {
    ||| 'a' <= c <= 'z'
    ||| 'A' <= c <= 'Z'
    ||| '0' <= c <= '9'
    ||| c == '_'
}

/// Whether `s` is an identifier: between one and sixty-three characters,
/// each an ASCII letter, an ASCII digit or an underscore, and the first no
/// digit.
pub open spec fn is_identifier_text(s: Seq<char>) -> bool {
    &&& 1 <= s.len() <= MAX_IDENTIFIER_LEN
    &&& !('0' <= s[0] <= '9')
    &&& forall|i: int| 0 <= i < s.len() ==> is_identifier_char(#[trigger] s[i])
}

/// Whether two strings hold the same characters.
pub fn same_text(a: &str, b: &str) -> (r: bool)
    ensures
        r == (a@ == b@),
{
    let x = a.to_owned();
    let y = b.to_owned();
    x == y
}

/// Whether `name` is an identifier, and so can name a table of a store
/// without quoting.
pub fn is_identifier(name: &str) -> (r: bool)
    ensures
        r == is_identifier_text(name@),
{
    let n = name.unicode_len();
    if n == 0 || n > MAX_IDENTIFIER_LEN {
        return false;
    }
    let first = name.get_char(0);
    if '0' <= first && first <= '9' {
        return false;
    }
    let mut i: usize = 0;
    while i < n
        invariant
            n == name@.len(),
            i <= n,
            forall|j: int| 0 <= j < i ==> is_identifier_char(#[trigger] name@[j]),
        decreases n - i,
    {
        let c = name.get_char(i);
        let fits = ('a' <= c && c <= 'z') || ('A' <= c && c <= 'Z') || ('0' <= c && c <= '9') || c
            == '_';
        if !fits {
            return false;
        }
        i += 1;
    }
    true
}

} // verus!
