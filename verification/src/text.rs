//! Byte-string helpers: decimal notation of integers, byte-sequence
//! equality and substring search. All text in this library is a sequence
//! of bytes; these are the primitives the codec and the dispatcher share.

use vstd::prelude::*;

verus! {

/// ASCII decimal digit.
pub open spec fn is_digit(b: u8) -> bool {
    48 <= b && b <= 57
}

/// Decimal digits of a natural number, most significant first,
/// without leading zeros.
pub open spec fn dec_digits(n: nat) -> Seq<u8>
    decreases n,
{
    if n < 10 {
        seq![(n + 48) as u8]
    } else {
        dec_digits(n / 10).push((n % 10 + 48) as u8)
    }
}

/// Decimal notation of an integer: a minus sign for negative values,
/// then the digits of the magnitude.
pub open spec fn dec_i64(v: int) -> Seq<u8> {
    if v < 0 {
        seq![45u8] + dec_digits((-v) as nat)
    } else {
        dec_digits(v as nat)
    }
}

/// The number a digit string denotes, most significant digit first.
pub open spec fn digits_val(s: Seq<u8>) -> nat
    decreases s.len(),
{
    if s.len() == 0 {
        0
    } else {
        digits_val(s.drop_last()) * 10 + (s.last() - 48) as nat
    }
}

/// `dec_digits` yields at least one digit, all ASCII digits, and a
/// leading zero only for zero itself.
pub proof fn lemma_dec_digits_shape(n: nat)
    ensures
        dec_digits(n).len() >= 1,
        forall|i: int| 0 <= i < dec_digits(n).len() ==> is_digit(#[trigger] dec_digits(n)[i]),
        n > 0 ==> dec_digits(n)[0] != 48,
        n < 10 ==> dec_digits(n) == seq![(n + 48) as u8],
    decreases n,
{
    if n >= 10 {
        lemma_dec_digits_shape(n / 10);
    }
}

/// Reading back the digits of `n` gives `n`.
pub proof fn lemma_digits_val_of_dec(n: nat)
    ensures
        digits_val(dec_digits(n)) == n,
    decreases n,
{
    if n < 10 {
        let s = seq![(n + 48) as u8];
        assert(s.drop_last() =~= Seq::<u8>::empty());
        assert(digits_val(Seq::<u8>::empty()) == 0);
        assert(digits_val(s) == (s.last() - 48) as nat);
    } else {
        lemma_digits_val_of_dec(n / 10);
        let s = dec_digits(n / 10).push((n % 10 + 48) as u8);
        assert(s.drop_last() =~= dec_digits(n / 10));
        assert(digits_val(s) == digits_val(dec_digits(n / 10)) * 10 + (s.last() - 48) as nat);
        vstd::arithmetic::div_mod::lemma_fundamental_div_mod(n as int, 10);
    }
}

/// A nonempty digit string without a leading zero denotes a positive number.
pub proof fn lemma_digits_val_pos(s: Seq<u8>)
    requires
        s.len() >= 1,
        forall|i: int| 0 <= i < s.len() ==> is_digit(#[trigger] s[i]),
        s[0] != 48,
    ensures
        digits_val(s) >= 1,
    decreases s.len(),
{
    if s.len() > 1 {
        lemma_digits_val_pos(s.drop_last());
    }
}

/// A digit string without a leading zero is the decimal notation of
/// the number it denotes: decimal notation is injective.
pub proof fn lemma_dec_digits_of_val(s: Seq<u8>)
    requires
        s.len() >= 1,
        forall|i: int| 0 <= i < s.len() ==> is_digit(#[trigger] s[i]),
        s.len() > 1 ==> s[0] != 48,
    ensures
        dec_digits(digits_val(s)) == s,
    decreases s.len(),
{
    if s.len() == 1 {
        let v = digits_val(s);
        assert(s.drop_last() =~= Seq::<u8>::empty());
        assert(digits_val(Seq::<u8>::empty()) == 0);
        assert(v == (s[0] - 48) as nat);
        assert(dec_digits(v) =~= s);
    } else {
        let s0 = s.drop_last();
        let d = s.last();
        lemma_dec_digits_of_val(s0);
        lemma_digits_val_pos(s0);
        let v0 = digits_val(s0);
        let v = digits_val(s);
        assert(v == v0 * 10 + (d - 48) as nat);
        assert(v >= 10) by {
            assert(v0 >= 1);
            assert(v0 * 10 >= 10) by (nonlinear_arith)
                requires v0 >= 1;
        }
        vstd::arithmetic::div_mod::lemma_fundamental_div_mod_converse(
            v as int, 10, v0 as int, ((d - 48) as nat) as int);
        assert(dec_digits(v) == dec_digits(v0).push((v % 10 + 48) as u8));
        assert((v % 10 + 48) as u8 == d);
        assert(dec_digits(v) =~= s);
    }
}

/// A digit string's value only grows when more digits follow.
pub proof fn lemma_digits_val_extend_ge(p: Seq<u8>, q: Seq<u8>)
    ensures
        digits_val(p + q) >= digits_val(p),
    decreases q.len(),
{
    if q.len() == 0 {
        assert(p + q =~= p);
    } else {
        lemma_digits_val_extend_ge(p, q.drop_last());
        assert((p + q).drop_last() =~= p + q.drop_last());
        assert((p + q).len() > 0);
        assert(digits_val(p + q) == digits_val(p + q.drop_last()) * 10 + ((p + q).last() - 48) as nat);
        assert(digits_val(p + q.drop_last()) * 10 >= digits_val(p + q.drop_last()));
    }
}

/// Decimal digits of a 64-bit natural number.
pub fn u64_to_dec(n: u64) -> (r: Vec<u8>)
    ensures
        r@ == dec_digits(n as nat),
    decreases n,
{
    if n < 10 {
        let mut v: Vec<u8> = Vec::new();
        v.push((n as u8) + 48);
        proof {
            assert(v@ =~= dec_digits(n as nat));
        }
        v
    } else {
        let mut v = u64_to_dec(n / 10);
        v.push((n % 10) as u8 + 48);
        proof {
            assert(v@ =~= dec_digits(n as nat));
        }
        v
    }
}

/// Decimal notation of a 64-bit integer, sign included.
pub fn i64_to_dec(v: i64) -> (r: Vec<u8>)
    ensures
        r@ == dec_i64(v as int),
{
    if v >= 0 {
        let r = u64_to_dec(v as u64);
        r
    } else {
        let mag: u64 = (-(v as i128)) as u64;
        assert(mag as nat == (-(v as int)) as nat);
        let mut digits = u64_to_dec(mag);
        let mut r: Vec<u8> = Vec::new();
        r.push(45u8);
        r.append(&mut digits);
        proof {
            assert(r@ =~= dec_i64(v as int));
        }
        r
    }
}

/// Two byte strings hold the same bytes.
pub fn bytes_eq(a: &Vec<u8>, b: &Vec<u8>) -> (r: bool)
    ensures
        r == (a@ == b@),
{
    if a.len() != b.len() {
        return false;
    }
    let mut i: usize = 0;
    while i < a.len()
        invariant
            i <= a.len(),
            a.len() == b.len(),
            forall|k: int| 0 <= k < i ==> a@[k] == b@[k],
        decreases a.len() - i,
    {
        if a[i] != b[i] {
            return false;
        }
        i += 1;
    }
    proof {
        assert(a@ =~= b@);
    }
    true
}

/// `needle` occurs as a contiguous run inside `hay`.
pub open spec fn contains_seq(hay: Seq<u8>, needle: Seq<u8>) -> bool {
    exists|i: int|
        0 <= i && i + needle.len() <= hay.len()
            && #[trigger] hay.subrange(i, i + needle.len()) == needle
}

/// Do the bytes of `needle` stand in `hay` at position `at`?
pub fn match_at(hay: &Vec<u8>, needle: &Vec<u8>, at: usize) -> (r: bool)
    requires
        at + needle@.len() <= hay@.len(),
    ensures
        r == (hay@.subrange(at as int, at + needle@.len()) == needle@),
{
    let hlen = hay.len();
    let mut k: usize = 0;
    while k < needle.len()
        invariant
            k <= needle@.len(),
            hlen == hay@.len(),
            at + needle@.len() <= hay@.len(),
            forall|j: int| 0 <= j < k ==> hay@[at + j] == needle@[j],
        decreases needle@.len() - k,
    {
        if hay[at + k] != needle[k] {
            proof {
                assert(hay@.subrange(at as int, at + needle@.len())[k as int] != needle@[k as int]);
            }
            return false;
        }
        k += 1;
    }
    proof {
        assert(hay@.subrange(at as int, at + needle@.len()) =~= needle@);
    }
    true
}

/// Substring search over bytes.
pub fn contains_bytes(hay: &Vec<u8>, needle: &Vec<u8>) -> (r: bool)
    ensures
        r == contains_seq(hay@, needle@),
{
    let hlen = hay.len();
    let nlen = needle.len();
    if nlen > hlen {
        return false;
    }
    if nlen == 0 {
        proof {
            assert(hay@.subrange(0, 0 + needle@.len() as int) =~= needle@);
        }
        return true;
    }
    let last_start = hlen - nlen;
    let mut i: usize = 0;
    while i <= last_start
        invariant
            hlen == hay@.len(),
            nlen == needle@.len(),
            1 <= nlen <= hlen,
            last_start == hlen - nlen,
            i <= last_start + 1,
            forall|j: int| 0 <= j < i
                ==> #[trigger] hay@.subrange(j, j + needle@.len()) != needle@,
        decreases last_start + 1 - i,
    {
        if match_at(hay, needle, i) {
            assert(contains_seq(hay@, needle@));
            return true;
        }
        i += 1;
    }
    proof {
        assert forall|j: int| 0 <= j && j + needle@.len() <= hay@.len()
            implies #[trigger] hay@.subrange(j, j + needle@.len()) != needle@ by {
            assert(j < i);
        }
    }
    false
}

} // verus!
