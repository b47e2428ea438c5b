//! Helpers on text seen as a sequence of characters.
use vstd::prelude::*;
use vstd::string::StrSliceExecFns;

verus! {

/// The characters of `s`, one per element.
pub fn chars_of(s: &str) -> (r: Vec<char>)
    ensures
        r@ == s@,
{
    let mut r: Vec<char> = Vec::new();
    for c in it: s.chars()
        invariant
            r@ == it.seq().subrange(0, it.index() as int),
    {
        r.push(c);
    }
    r
}

/// Whether `c[from..to]` spells `lit`.
pub fn chars_eq(c: &Vec<char>, from: usize, to: usize, lit: &str) -> (r: bool)
    requires
        from <= to <= c@.len(),
    ensures
        r == (c@.subrange(from as int, to as int) == lit@),
{
    let n = lit.unicode_len();
    if to - from != n {
        return false;
    }
    let mut i: usize = 0;
    while i < n
        invariant
            from <= to <= c@.len(),
            to - from == n == lit@.len(),
            i <= n,
            forall|j: int| 0 <= j < i ==> c@[from + j] == lit@[j],
        decreases n - i,
    {
        if c[from + i] != lit.get_char(i) {
            assert(c@.subrange(from as int, to as int)[i as int] != lit@[i as int]);
            return false;
        }
        i = i + 1;
    }
    assert(c@.subrange(from as int, to as int) =~= lit@);
    true
}

} // verus!
