//! Byte-level text utilities: whitespace tokenization, unsigned decimal
//! parsing, and substring search. Report lines are treated as byte strings.

use vstd::prelude::*;

verus! {

/// ASCII whitespace: the separators between the columns of a report line.
pub open spec fn is_ws(b: u8) -> bool {
    b == 32 || b == 9 || b == 10 || b == 13 || b == 11 || b == 12
}

fn byte_is_ws(b: u8) -> (r: bool)
    ensures
        r == is_ws(b),
{
    b == 32 || b == 9 || b == 10 || b == 13 || b == 11 || b == 12
}

/// Length of the leading run of non-whitespace bytes.
pub open spec fn token_len(s: Seq<u8>) -> nat
    decreases s.len(),
{
    if s.len() == 0 || is_ws(s[0]) {
        0
    } else {
        1 + token_len(s.drop_first())
    }
}

proof fn lemma_token_len_le(s: Seq<u8>)
    ensures
        token_len(s) <= s.len(),
    decreases s.len(),
{
    if s.len() != 0 && !is_ws(s[0]) {
        lemma_token_len_le(s.drop_first());
    }
}

/// The whitespace-separated tokens of a line, in order.
pub open spec fn split_ws(s: Seq<u8>) -> Seq<Seq<u8>>
    decreases s.len(),
    via split_ws_dec
{
    if s.len() == 0 {
        Seq::empty()
    } else if is_ws(s[0]) {
        split_ws(s.drop_first())
    } else {
        seq![s.take(token_len(s) as int)] + split_ws(s.skip(token_len(s) as int))
    }
}

#[via_fn]
proof fn split_ws_dec(s: Seq<u8>) {
    if s.len() != 0 && !is_ws(s[0]) {
        lemma_token_len_le(s);
    }
}

/// The leading token covers exactly the non-whitespace run `[0, k)`.
proof fn lemma_token_len_run(s: Seq<u8>, k: int)
    requires
        0 <= k <= s.len(),
        forall|j: int| 0 <= j < k ==> !is_ws(s[j]),
        k == s.len() || is_ws(s[k]),
    ensures
        token_len(s) == k,
    decreases k,
{
    if k == 0 {
    } else {
        assert(!is_ws(s[0]));
        let t = s.drop_first();
        assert forall|j: int| 0 <= j < k - 1 implies !is_ws(t[j]) by {
            assert(t[j] == s[j + 1]);
        }
        if k < s.len() {
            assert(t[k - 1] == s[k]);
        }
        lemma_token_len_run(t, k - 1);
    }
}

/// Splitting a line whose head is a non-whitespace run `[0, k)` yields that
/// run as the first token, followed by the tokens of the rest.
proof fn lemma_split_ws_step(s: Seq<u8>, k: int)
    requires
        0 < k <= s.len(),
        forall|j: int| 0 <= j < k ==> !is_ws(s[j]),
        k == s.len() || is_ws(s[k]),
    ensures
        split_ws(s) == seq![s.take(k)] + split_ws(s.skip(k)),
{
    lemma_token_len_run(s, k);
}

/// Splits a line into its whitespace-separated tokens.
#[verifier::loop_isolation(false)]
pub fn split_whitespace_bytes(s: &[u8]) -> (toks: Vec<Vec<u8>>)
    ensures
        toks@.map_values(|t: Vec<u8>| t@) == split_ws(s@),
{
    let ghost f = |t: Vec<u8>| t@;
    let mut toks: Vec<Vec<u8>> = Vec::new();
    let mut i: usize = 0;
    proof {
        assert(toks@.map_values(f) =~= Seq::<Seq<u8>>::empty());
        assert(s@.skip(0) =~= s@);
    }
    while i < s.len()
        invariant
            i <= s@.len(),
            split_ws(s@) == toks@.map_values(f) + split_ws(s@.skip(i as int)),
        decreases s@.len() - i,
    {
        if byte_is_ws(s[i]) {
            proof {
                assert(s@.skip(i as int).drop_first() =~= s@.skip(i + 1));
            }
            i = i + 1;
        } else {
            let start = i;
            i = i + 1;
            while i < s.len() && !byte_is_ws(s[i])
                invariant
                    start < i <= s@.len(),
                    forall|j: int| start <= j < i ==> !is_ws(s@[j]),
                decreases s@.len() - i,
            {
                i = i + 1;
            }
            let tok: Vec<u8> = vstd::slice::slice_to_vec(vstd::slice::slice_subrange(s, start, i));
            proof {
                let rest = s@.skip(start as int);
                let k = i - start;
                assert forall|j: int| 0 <= j < k implies !is_ws(rest[j]) by {
                    assert(rest[j] == s@[start + j]);
                }
                if i < s@.len() {
                    assert(rest[k] == s@[i as int]);
                }
                lemma_split_ws_step(rest, k);
                assert(rest.take(k) =~= s@.subrange(start as int, i as int));
                assert(rest.skip(k) =~= s@.skip(i as int));
                let old_toks = toks@;
                assert((old_toks.push(tok)).map_values(f) =~~= old_toks.map_values(f).push(tok@));
                assert(old_toks.map_values(f).push(tok@) + split_ws(s@.skip(i as int)) =~= old_toks.map_values(f) + (seq![tok@] + split_ws(s@.skip(i as int))));
            }
            toks.push(tok);
        }
    }
    proof {
        assert(s@.skip(s@.len() as int) =~= Seq::<u8>::empty());
        assert(toks@.map_values(f) + split_ws(s@.skip(i as int)) =~= toks@.map_values(f));
    }
    toks
}

/// An ASCII decimal digit.
pub open spec fn is_digit(b: u8) -> bool {
    48 <= b <= 57
}

pub open spec fn all_digits(s: Seq<u8>) -> bool {
    forall|i: int| 0 <= i < s.len() ==> is_digit(s[i])
}

/// The value of a digit string read as a decimal number.
pub open spec fn dec_value(s: Seq<u8>) -> nat
    decreases s.len(),
{
    if s.len() == 0 {
        0
    } else {
        dec_value(s.drop_last()) * 10 + (s.last() - 48) as nat
    }
}

/// A token that `parse_u32` accepts: nonempty, digits only, value in range.
pub open spec fn is_u32_numeral(s: Seq<u8>) -> bool {
    s.len() > 0 && all_digits(s) && dec_value(s) <= u32::MAX
}

/// A decimal prefix never exceeds the value of the whole string.
proof fn lemma_dec_value_take_le(s: Seq<u8>, i: int)
    requires
        0 <= i <= s.len(),
    ensures
        dec_value(s.take(i)) <= dec_value(s),
    decreases s.len() - i,
{
    if i < s.len() {
        assert(s.take(i + 1).drop_last() =~= s.take(i));
        assert(dec_value(s.take(i)) <= dec_value(s.take(i + 1)));
        lemma_dec_value_take_le(s, i + 1);
    } else {
        assert(s.take(i) =~= s);
    }
}

/// Parses a byte string as an unsigned decimal number. Accepts exactly the
/// nonempty all-digit strings whose value fits in a `u32`; a leading sign,
/// other characters, and out-of-range values are rejected.
pub fn parse_u32(s: &[u8]) -> (r: Option<u32>)
    ensures
        r is Some <==> is_u32_numeral(s@),
        r matches Some(v) ==> v as nat == dec_value(s@),
{
    if s.len() == 0 {
        return None;
    }
    let mut i: usize = 0;
    while i < s.len()
        invariant
            i <= s@.len(),
            forall|j: int| 0 <= j < i ==> is_digit(s@[j]),
        decreases s@.len() - i,
    {
        let b = s[i];
        if b < 48 || b > 57 {
            proof {
                assert(!is_digit(s@[i as int]));
            }
            return None;
        }
        i = i + 1;
    }
    let mut acc: u64 = 0;
    let mut k: usize = 0;
    proof {
        assert(s@.take(0) =~= Seq::<u8>::empty());
    }
    while k < s.len()
        invariant
            k <= s@.len(),
            all_digits(s@),
            acc <= u32::MAX,
            acc as nat == dec_value(s@.take(k as int)),
        decreases s@.len() - k,
    {
        let b = s[k];
        acc = acc * 10 + (b - 48) as u64;
        proof {
            assert(s@.take(k + 1).drop_last() =~= s@.take(k as int));
            assert(s@.take(k + 1).last() == s@[k as int]);
        }
        if acc > 0xFFFF_FFFF {
            proof {
                lemma_dec_value_take_le(s@, k + 1);
            }
            return None;
        }
        k = k + 1;
    }
    proof {
        assert(s@.take(s@.len() as int) =~= s@);
    }
    Some(acc as u32)
}

/// Whether `p` occurs in `s` as a contiguous run of bytes. The empty string
/// occurs in every string.
pub open spec fn contains_sub(s: Seq<u8>, p: Seq<u8>) -> bool {
    exists|i: int| 0 <= i && i + p.len() <= s.len() && #[trigger] s.subrange(i, i + p.len()) == p
}

/// Whether `p` occurs in `s` starting at position `i`.
#[verifier::loop_isolation(false)]
fn matches_at(s: &[u8], p: &[u8], i: usize) -> (r: bool)
    requires
        i + p@.len() <= s@.len(),
    ensures
        r == (s@.subrange(i as int, i + p@.len()) == p@),
{
    let slen = s.len();
    let mut m: usize = 0;
    while m < p.len()
        invariant
            m <= p@.len(),
            forall|t: int| 0 <= t < m ==> s@[i + t] == p@[t],
        decreases p@.len() - m,
    {
        if s[i + m] != p[m] {
            proof {
                assert(s@.subrange(i as int, i + p@.len())[m as int] != p@[m as int]);
            }
            return false;
        }
        m = m + 1;
    }
    proof {
        assert(s@.subrange(i as int, i + p@.len()) =~= p@);
    }
    true
}

/// Substring search, the exact and case-sensitive occurrence test that the
/// name-based exclusion uses.
#[verifier::loop_isolation(false)]
pub fn slice_contains_sub(s: &[u8], p: &[u8]) -> (r: bool)
    ensures
        r == contains_sub(s@, p@),
{
    if p.len() > s.len() {
        return false;
    }
    let bound = s.len() - p.len();
    let mut i: usize = 0;
    while i < bound
        invariant
            i <= bound,
            forall|j: int| 0 <= j < i ==> #[trigger] s@.subrange(j, j + p@.len()) != p@,
        decreases bound - i,
    {
        if matches_at(s, p, i) {
            return true;
        }
        i = i + 1;
    }
    if matches_at(s, p, bound) {
        return true;
    }
    false
}

/// Equality of byte strings.
pub fn bytes_eq(a: &[u8], b: &[u8]) -> (r: bool)
    ensures
        r == (a@ == b@),
{
    if a.len() != b.len() {
        return false;
    }
    let mut i: usize = 0;
    while i < a.len()
        invariant
            i <= a@.len(),
            a@.len() == b@.len(),
            forall|j: int| 0 <= j < i ==> a@[j] == b@[j],
        decreases a@.len() - i,
    {
        if a[i] != b[i] {
            return false;
        }
        i = i + 1;
    }
    proof {
        assert(a@ =~= b@);
    }
    true
}

/// A copy of a byte string.
pub fn copy_bytes(v: &[u8]) -> (r: Vec<u8>)
    ensures
        r@ == v@,
{
    let mut r: Vec<u8> = Vec::new();
    let mut i: usize = 0;
    while i < v.len()
        invariant
            i <= v@.len(),
            r@ =~= v@.take(i as int),
        decreases v@.len() - i,
    {
        r.push(v[i]);
        proof {
            assert(v@.take(i + 1) =~= v@.take(i as int).push(v@[i as int]));
        }
        i = i + 1;
    }
    proof {
        assert(v@.take(v@.len() as int) =~= v@);
    }
    r
}

} // verus!
