//! Small verified helpers for moving between `&str`, `Vec<char>` and
//! `String`.

use vstd::prelude::*;

verus! {

/// Relies on `String::push`: appends the given character to the string.
#[verifier::external_body]
pub(crate) fn push_char(s: &mut String, c: char)
    ensures
        final(s)@ == old(s)@.push(c),
{
    s.push(c);
}

/// Appends every character of `cs` to `s`, in order.
pub fn append_chars(s: &mut String, cs: &Vec<char>)
    ensures
        final(s)@ == old(s)@ + cs@,
{
    let n = cs.len();
    let mut j: usize = 0;
    proof {
        assert(old(s)@ + cs@.take(0) =~= old(s)@);
    }
    while j < n
        invariant
            n == cs@.len(),
            j <= n,
            s@ == old(s)@ + cs@.take(j as int),
        decreases n - j,
    {
        push_char(s, cs[j]);
        proof {
            assert((old(s)@ + cs@.take(j as int)).push(cs@[j as int]) =~= old(s)@ + cs@.take(
                j as int + 1,
            ));
        }
        j += 1;
    }
    proof {
        assert(cs@.take(n as int) =~= cs@);
    }
}

/// The characters of `text`, in order, as a vector.
pub fn chars_of(text: &str) -> (r: Vec<char>)
    ensures
        r@ == text@,
{
    let mut r: Vec<char> = Vec::new();
    for c in it: text.chars()
        invariant
            it.seq() == text@,
            r@ == it.seq().take(it.index() as int),
    {
        r.push(c);
        proof {
            assert(it.seq().take(it.index() as int).push(it.seq()[it.index() as int])
                =~= it.seq().take(it.index() as int + 1));
        }
    }
    proof {
        assert(text@.take(text@.len() as int) =~= text@);
    }
    r
}

/// The characters `cs[start..end]`, collected into a string.
pub fn string_from_range(cs: &Vec<char>, start: usize, end: usize) -> (r: String)
    requires
        start <= end <= cs@.len(),
    ensures
        r@ == cs@.subrange(start as int, end as int),
{
    let mut r = String::new();
    let mut j: usize = start;
    while j < end
        invariant
            start <= j <= end <= cs@.len(),
            r@ == cs@.subrange(start as int, j as int),
        decreases end - j,
    {
        push_char(&mut r, cs[j]);
        proof {
            assert(cs@.subrange(start as int, j as int).push(cs@[j as int]) =~= cs@.subrange(
                start as int,
                j as int + 1,
            ));
        }
        j += 1;
    }
    r
}

} // verus!
