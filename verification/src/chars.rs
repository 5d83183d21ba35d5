//! Conversions between strings and character vectors.

use vstd::prelude::*;
use vstd::std_specs::iter::IteratorSpec;

verus! {

/// `String::push` appends one character to the end of the string.
pub assume_specification[ String::push ](s: &mut String, ch: char)
    ensures
        final(s)@ == old(s)@.push(ch),
;

/// Appends the characters of `s` to `out`, in order.
pub fn push_chars(out: &mut Vec<char>, s: &str)
    ensures
        final(out)@ == old(out)@ + s@,
{
    broadcast use vstd::string::group_string_axioms;

    let mut it = s.chars();
    let ghost start = out@;
    loop
        invariant
            it.obeys_prophetic_iter_laws(),
            it.decrease() is Some,
            start == old(out)@,
            start + s@ == out@ + it.remaining(),
        decreases it.decrease()->0,
    {
        let ghost before = it.remaining();
        match it.next() {
            Some(c) => {
                out.push(c);
                proof {
                    assert(before =~= seq![c] + before.drop_first());
                    assert(out@ + it.remaining() =~= start + s@);
                }
            },
            None => {
                proof {
                    assert(before.len() == 0);
                    assert(out@ + it.remaining() =~= out@);
                }
                return ;
            },
        }
    }
}

/// The characters of `s` as a vector.
pub fn to_chars(s: &str) -> (v: Vec<char>)
    ensures
        v@ == s@,
{
    let mut v: Vec<char> = Vec::new();
    push_chars(&mut v, s);
    assert(v@ =~= s@);
    v
}

/// The string made of the characters of `v`.
pub fn to_string(v: &Vec<char>) -> (s: String)
    ensures
        s@ == v@,
{
    let mut s = String::new();
    let mut i: usize = 0;
    while i < v.len()
        invariant
            i <= v.len(),
            s@ == v@.take(i as int),
        decreases v.len() - i,
    {
        s.push(v[i]);
        i += 1;
        assert(v@.take(i as int) =~= v@.take(i - 1).push(v@[i - 1]));
    }
    assert(v@.take(v.len() as int) =~= v@);
    s
}

/// Whether `s` ends with `pat`.
pub open spec fn ends_with(s: Seq<char>, pat: Seq<char>) -> bool {
    s.len() >= pat.len() && s.skip(s.len() - pat.len()) =~= pat
}

/// Whether the characters of `window` end with those of `pat`.
pub fn chars_end_with(window: &Vec<char>, pat: &Vec<char>) -> (r: bool)
    ensures
        r == ends_with(window@, pat@),
{
    let n = window.len();
    let m = pat.len();
    if n < m {
        return false;
    }
    let mut i: usize = 0;
    while i < m
        invariant
            m <= n,
            n == window.len(),
            m == pat.len(),
            i <= m,
            forall|k: int| 0 <= k < i ==> window@[n - m + k] == pat@[k],
        decreases m - i,
    {
        if window[n - m + i] != pat[i] {
            assert(window@.skip(n - m)[i as int] != pat@[i as int]);
            return false;
        }
        i += 1;
    }
    assert(window@.skip(n - m) =~= pat@);
    true
}

} // verus!
