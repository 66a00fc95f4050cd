//! Small parsing helpers for the raw map-data attributes.

use vstd::prelude::*;

verus! {

/// Numeric value of a big-endian sequence of ASCII decimal digit bytes.
pub open spec fn dec_value(s: Seq<u8>) -> int
    decreases s.len(),
{
    if s.len() == 0 {
        0
    } else {
        dec_value(s.drop_last()) * 10 + s.last() - 0x30
    }
}

/// Every byte of `s` is an ASCII decimal digit.
pub open spec fn is_digits(s: Seq<u8>) -> bool {
    forall|i: int| 0 <= i < s.len() ==> 0x30 <= #[trigger] s[i] <= 0x39
}

proof fn lemma_dec_value_nonneg(s: Seq<u8>)
    requires
        is_digits(s),
    ensures
        dec_value(s) >= 0,
    decreases s.len(),
{
    if s.len() > 0 {
        assert(is_digits(s.drop_last()));
        lemma_dec_value_nonneg(s.drop_last());
    }
}

proof fn lemma_dec_value_take_succ(s: Seq<u8>, i: int)
    requires
        0 <= i < s.len(),
    ensures
        dec_value(s.take(i + 1)) == dec_value(s.take(i)) * 10 + s[i] - 0x30,
{
    assert(s.take(i + 1).drop_last() =~= s.take(i));
    assert(s.take(i + 1).last() == s[i]);
}

proof fn lemma_dec_value_prefix(s: Seq<u8>, i: int)
    requires
        0 <= i <= s.len(),
        is_digits(s),
    ensures
        dec_value(s.take(i)) <= dec_value(s),
    decreases s.len() - i,
{
    if i == s.len() {
        assert(s.take(i) =~= s);
    } else {
        lemma_dec_value_take_succ(s, i);
        assert(is_digits(s.take(i)));
        lemma_dec_value_nonneg(s.take(i));
        lemma_dec_value_prefix(s, i + 1);
    }
}

/// Parses an unsigned decimal integer from its ASCII digit bytes.
pub fn u64_parse(s: &[u8]) -> (r: u64)
    requires
        s@.len() > 0,
        is_digits(s@),
        dec_value(s@) <= u64::MAX,
    ensures
        r == dec_value(s@),
{
    let n: usize = s.len();
    let mut r: u64 = 0;
    let mut i: usize = 0;
    while i < n
        invariant
            i <= n,
            n == s@.len(),
            is_digits(s@),
            dec_value(s@) <= u64::MAX,
            r == dec_value(s@.take(i as int)),
        decreases n - i,
    {
        proof {
            lemma_dec_value_take_succ(s@, i as int);
            lemma_dec_value_prefix(s@, i + 1);
            assert(is_digits(s@.take(i + 1)));
            lemma_dec_value_nonneg(s@.take(i + 1));
            assert(0x30 <= s@[i as int] <= 0x39);
        }
        let d: u8 = s[i];
        r = r * 10 + ((d - 0x30) as u64);
        i = i + 1;
    }
    proof {
        assert(s@.take(n as int) =~= s@);
    }
    r
}

} // verus!
