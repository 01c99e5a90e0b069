use vstd::prelude::*;
use vstd::string::*;

verus! {

/// Collects the characters of `s` into a vector, so that they can be read by index.
pub fn chars_of(s: &str) -> (r: Vec<char>)
    ensures
        r@ == s@,
{
    let mut out: Vec<char> = Vec::new();
    for c in it: s.chars()
        invariant
            it.seq() == s@,
            out@ == it.seq().take(it.index() as int),
    {
        out.push(c);
    }
    out
}

} // verus!

verus! {

/// Whether `text` and `word` hold the same characters.
pub fn same_text(text: &str, word: &str) -> (r: bool)
    ensures
        r == (text@ == word@),
{
    let n = text.unicode_len();
    let m = word.unicode_len();
    if n != m {
        return false;
    }
    let mut k: usize = 0;
    while k < m
        invariant
            k <= m,
            n == m,
            text@.len() == n,
            word@.len() == m,
            forall|i: int| 0 <= i < k ==> text@[i] == word@[i],
        decreases m - k,
    {
        if text.get_char(k) != word.get_char(k) {
            return false;
        }
        k = k + 1;
    }
    assert(text@ =~= word@);
    true
}

} // verus!
