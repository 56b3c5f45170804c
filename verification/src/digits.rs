//! Decimal digit runs: their value as an unbounded integer, the canonical
//! digit run of a number, and checked conversion to a machine integer.

use vstd::prelude::*;

verus! {

/// Is `c` one of the ten ASCII digits?
pub open spec fn is_digit_char(c: char) -> bool {
    48 <= c as u32 && c as u32 <= 57
}

/// The numeric value of an ASCII digit character.
pub open spec fn digit_val(c: char) -> nat
    recommends
        is_digit_char(c),
{
    (c as u32 - 48) as nat
}

/// The ASCII digit character for a value below ten.
pub open spec fn digit_char(d: nat) -> char
    recommends
        d < 10,
{
    ((48 + d) as u8) as char
}

/// The number denoted by a run of ASCII digits, most significant first.
/// An empty run denotes zero.
pub open spec fn digits_val(ds: Seq<char>) -> nat
    decreases ds.len(),
{
    if ds.len() == 0 {
        0
    } else {
        digits_val(ds.drop_last()) * 10 + digit_val(ds.last())
    }
}

/// The canonical digit run of `n`: no leading zero except for `n == 0`.
pub open spec fn dec_digits(n: nat) -> Seq<char>
    decreases n,
{
    if n < 10 {
        seq![digit_char(n)]
    } else {
        dec_digits(n / 10).push(digit_char(n % 10))
    }
}

/// Every prefix of a digit run denotes at most the value of the whole run.
pub proof fn lemma_digits_val_prefix(ds: Seq<char>, k: int)
    requires
        0 <= k <= ds.len(),
    ensures
        digits_val(ds.take(k)) <= digits_val(ds),
    decreases ds.len() - k,
{
    if k == ds.len() {
        assert(ds.take(k) =~= ds);
    } else {
        lemma_digits_val_prefix(ds, k + 1);
        assert(ds.take(k + 1).drop_last() =~= ds.take(k));
        assert(digits_val(ds.take(k + 1)) == digits_val(ds.take(k)) * 10 + digit_val(
            ds.take(k + 1).last(),
        ));
    }
}

/// Appending one digit multiplies the value by ten and adds the digit.
pub proof fn lemma_digits_val_push(ds: Seq<char>, c: char)
    ensures
        digits_val(ds.push(c)) == digits_val(ds) * 10 + digit_val(c),
{
    assert(ds.push(c).drop_last() =~= ds);
}

/// The canonical digit run of `n` denotes `n`, is non-empty, consists of
/// digits, and starts with a zero only when `n` is zero.
pub proof fn lemma_dec_digits_val(n: nat)
    ensures
        digits_val(dec_digits(n)) == n,
        dec_digits(n).len() >= 1,
        forall|i: int| 0 <= i < dec_digits(n).len() ==> is_digit_char(#[trigger] dec_digits(n)[i]),
        n > 0 ==> dec_digits(n)[0] != '0',
    decreases n,
{
    if n < 10 {
        assert(digits_val(seq![digit_char(n)].drop_last()) == 0);
        assert(digit_char(n) as u32 == 48 + n);
        assert('0' as u32 == 48);
    } else {
        lemma_dec_digits_val(n / 10);
        lemma_digits_val_push(dec_digits(n / 10), digit_char(n % 10));
        assert(digit_val(digit_char(n % 10)) == n % 10);
        assert((n / 10) * 10 + n % 10 == n);
        assert(dec_digits(n)[0] == dec_digits(n / 10)[0]);
    }
}

/// Converts a run of ASCII digits to a 64-bit signed integer.
/// Returns `None` exactly when the denoted value exceeds `i64::MAX`.
pub fn digits_to_i64(s: &str) -> (r: Option<i64>)
    requires
        forall|i: int| 0 <= i < s@.len() ==> is_digit_char(#[trigger] s@[i]),
    ensures
        digits_val(s@) <= i64::MAX ==> r == Some(digits_val(s@) as i64),
        digits_val(s@) > i64::MAX ==> r is None,
{
    let n = s.unicode_len();
    let mut acc: u64 = 0;
    let mut i: usize = 0;
    while i < n
        invariant
            n == s@.len(),
            i <= n,
            forall|j: int| 0 <= j < s@.len() ==> is_digit_char(#[trigger] s@[j]),
            acc == digits_val(s@.take(i as int)),
            acc <= 9223372036854775807u64,
        decreases n - i,
    {
        let c = s.get_char(i);
        proof {
            assert(is_digit_char(s@[i as int]));
        }
        let d: u64 = (c as u32 - 48) as u64;
        proof {
            lemma_digits_val_push(s@.take(i as int), c);
            assert(s@.take(i as int).push(c) =~= s@.take(i as int + 1));
        }
        if acc > 922337203685477580u64 || (acc == 922337203685477580u64 && d > 7) {
            proof {
                lemma_digits_val_prefix(s@, i as int + 1);
            }
            return None;
        }
        acc = acc * 10 + d;
        i += 1;
    }
    proof {
        assert(s@.take(n as int) =~= s@);
    }
    Some(acc as i64)
}

/// The canonical decimal rendering of `n`, most significant digit first.
pub fn u64_to_digits(n: u64) -> (r: Vec<char>)
    ensures
        r@ == dec_digits(n as nat),
{
    let mut rev: Vec<char> = Vec::new();
    let mut cur: u64 = n;
    if cur == 0 {
        let mut out: Vec<char> = Vec::new();
        out.push('0');
        proof {
            assert('0' == digit_char(0));
            assert(out@ =~= dec_digits(0));
        }
        return out;
    }
    while cur > 0
        invariant
            cur > 0 ==> dec_digits(n as nat) == dec_digits(cur as nat) + rev@.reverse(),
            cur == 0 ==> dec_digits(n as nat) == rev@.reverse(),
            cur == 0 ==> rev@.len() >= 1,
        decreases cur,
    {
        let d: u64 = cur % 10;
        let c: char = (48 + d as u8) as char;
        proof {
            assert(c == digit_char((cur % 10) as nat));
            assert(rev@.push(c).reverse() =~= seq![c] + rev@.reverse());
            if cur >= 10 {
                assert(dec_digits(cur as nat) =~= dec_digits((cur / 10) as nat) + seq![c]);
                assert(dec_digits((cur / 10) as nat) + (seq![c] + rev@.reverse()) =~= (dec_digits(
                    (cur / 10) as nat,
                ) + seq![c]) + rev@.reverse());
            } else {
                assert(dec_digits(cur as nat) =~= seq![c]);
            }
        }
        rev.push(c);
        cur = cur / 10;
    }
    let mut out: Vec<char> = Vec::new();
    let len = rev.len();
    let mut k: usize = 0;
    while k < len
        invariant
            len == rev@.len(),
            k <= len,
            out@.len() == k,
            forall|j: int| 0 <= j < k ==> out@[j] == rev@[len - 1 - j],
        decreases len - k,
    {
        out.push(rev[len - 1 - k]);
        k += 1;
    }
    proof {
        assert(out@ =~= rev@.reverse());
    }
    out
}

} // verus!
