//! The persisted form of the ledger: a JSON document with one field,
//! `redeemed_users`, holding a list of 64-bit integers. The encoder
//! produces exactly `store_doc`; the decoder accepts a byte string if
//! and only if it is `store_doc` of some list, and returns that list.
//! Whoever stores the bytes can therefore read back exactly the set
//! that was written.

use vstd::prelude::*;
use crate::text::{is_digit, dec_digits, dec_i64, digits_val, lemma_dec_digits_shape,
    lemma_digits_val_of_dec, lemma_dec_digits_of_val, lemma_digits_val_extend_ge,
    i64_to_dec, match_at};

verus! {

/// The opening bytes of the document: `{"redeemed_users":[`.
pub open spec fn doc_prefix() -> Seq<u8> {
    seq![
        123u8, 34u8, 114u8, 101u8, 100u8, 101u8, 101u8, 109u8, 101u8, 100u8,
        95u8, 117u8, 115u8, 101u8, 114u8, 115u8, 34u8, 58u8, 91u8,
    ]
}

/// The decimal notations of `ids`, separated by commas.
pub open spec fn int_list(ids: Seq<i64>) -> Seq<u8>
    decreases ids.len(),
{
    if ids.len() == 0 {
        Seq::empty()
    } else if ids.len() == 1 {
        dec_i64(ids[0] as int)
    } else {
        dec_i64(ids[0] as int) + seq![44u8] + int_list(ids.drop_first())
    }
}

/// The decimal notations of `ids`, each followed by a comma: the shape
/// of a partially read list.
pub open spec fn int_list_open(ids: Seq<i64>) -> Seq<u8>
    decreases ids.len(),
{
    if ids.len() == 0 {
        Seq::empty()
    } else {
        int_list_open(ids.drop_last()) + dec_i64(ids.last() as int) + seq![44u8]
    }
}

/// The whole document that persists the list `ids`.
pub open spec fn store_doc(ids: Seq<i64>) -> Seq<u8> {
    doc_prefix() + int_list(ids) + seq![93u8, 125u8]
}

/// Appending one identifier to a comma-separated list.
pub proof fn lemma_int_list_push(s: Seq<i64>, x: i64)
    ensures
        s.len() == 0 ==> int_list(s.push(x)) == dec_i64(x as int),
        s.len() > 0 ==> int_list(s.push(x)) == int_list(s) + seq![44u8] + dec_i64(x as int),
    decreases s.len(),
{
    let p = s.push(x);
    if s.len() == 0 {
        assert(p.len() == 1);
        assert(p[0] == x);
    } else if s.len() == 1 {
        assert(p.len() == 2);
        assert(p.drop_first() =~= seq![x]);
        assert(int_list(p.drop_first()) == dec_i64(x as int));
        assert(int_list(s.push(x)) =~= int_list(s) + seq![44u8] + dec_i64(x as int));
    } else {
        lemma_int_list_push(s.drop_first(), x);
        assert(p.drop_first() =~= s.drop_first().push(x));
        assert(int_list(p) == dec_i64(p[0] as int) + seq![44u8] + int_list(p.drop_first()));
        assert(int_list(s.push(x)) =~= int_list(s) + seq![44u8] + dec_i64(x as int));
    }
}

/// A fully read list followed by one more notation closes into the
/// comma-separated list of all identifiers read.
pub proof fn lemma_int_list_open_push(s: Seq<i64>, x: i64)
    ensures
        int_list_open(s) + dec_i64(x as int) == int_list(s.push(x)),
    decreases s.len(),
{
    lemma_int_list_push(s, x);
    if s.len() == 0 {
        assert(int_list_open(s) + dec_i64(x as int) =~= dec_i64(x as int));
    } else {
        lemma_int_list_open_push(s.drop_last(), s.last());
        assert(s.drop_last().push(s.last()) =~= s);
        assert(int_list_open(s) == int_list_open(s.drop_last()) + dec_i64(s.last() as int)
            + seq![44u8]);
        assert(int_list_open(s.drop_last()) + dec_i64(s.last() as int) == int_list(s));
        assert(int_list_open(s) =~= int_list(s) + seq![44u8]);
        assert(int_list_open(s) + dec_i64(x as int)
            =~= int_list(s) + seq![44u8] + dec_i64(x as int));
    }
}

/// Shape of a decimal notation: nonempty, and its first byte tells the sign.
pub proof fn lemma_dec_i64_shape(v: int)
    requires
        i64::MIN <= v <= i64::MAX,
    ensures
        dec_i64(v).len() >= 1,
        v < 0 ==> dec_i64(v)[0] == 45 && dec_i64(v).len() >= 2,
        v >= 0 ==> is_digit(dec_i64(v)[0]),
        forall|i: int| 1 <= i < dec_i64(v).len() ==> is_digit(#[trigger] dec_i64(v)[i]),
{
    if v < 0 {
        lemma_dec_digits_shape((-v) as nat);
        assert(forall|i: int| 1 <= i < dec_i64(v).len()
            ==> #[trigger] dec_i64(v)[i] == dec_digits((-v) as nat)[i - 1]);
    } else {
        lemma_dec_digits_shape(v as nat);
    }
}

/// A decimal token: the notation of `v` stands at `pos` and is not
/// followed by a further digit.
pub open spec fn i64_token_at(b: Seq<u8>, pos: int, v: i64, end: int) -> bool {
    &&& 0 <= pos < end <= b.len()
    &&& b.subrange(pos, end) == dec_i64(v as int)
    &&& (end == b.len() || !is_digit(b[end]))
}

/// An unsigned decimal token.
pub open spec fn u64_token_at(b: Seq<u8>, pos: int, v: u64, end: int) -> bool {
    &&& 0 <= pos < end <= b.len()
    &&& b.subrange(pos, end) == dec_digits(v as nat)
    &&& (end == b.len() || !is_digit(b[end]))
}

/// Splitting a known concatenation inside a byte string.
proof fn lemma_split(b: Seq<u8>, lo: int, hi: int, x: Seq<u8>, y: Seq<u8>)
    requires
        0 <= lo <= hi <= b.len(),
        b.subrange(lo, hi) == x + y,
    ensures
        lo + x.len() + y.len() == hi,
        b.subrange(lo, lo + x.len()) == x,
        b.subrange(lo + x.len(), hi) == y,
{
    let whole = b.subrange(lo, hi);
    assert(whole.len() == x.len() + y.len());
    assert forall|i: int| 0 <= i < x.len()
        implies b.subrange(lo, lo + x.len())[i] == x[i] by {
        assert(whole[i] == b[lo + i]);
        assert((x + y)[i] == x[i]);
    }
    assert(b.subrange(lo, lo + x.len()) =~= x);
    assert forall|i: int| 0 <= i < y.len()
        implies b.subrange(lo + x.len(), hi)[i] == y[i] by {
        assert(whole[x.len() + i] == b[lo + x.len() + i]);
        assert((x + y)[x.len() + i] == y[i]);
    }
    assert(b.subrange(lo + x.len(), hi) =~= y);
}

/// At one position there is at most one unsigned decimal token.
proof fn lemma_u64_token_unique(b: Seq<u8>, pos: int, v1: u64, e1: int, v2: u64, e2: int)
    requires
        u64_token_at(b, pos, v1, e1),
        u64_token_at(b, pos, v2, e2),
    ensures
        v1 == v2,
        e1 == e2,
{
    lemma_dec_digits_shape(v1 as nat);
    lemma_dec_digits_shape(v2 as nat);
    if e1 < e2 {
        assert(b[e1] == b.subrange(pos, e2)[e1 - pos]);
        assert(is_digit(b[e1]));
    }
    if e2 < e1 {
        assert(b[e2] == b.subrange(pos, e1)[e2 - pos]);
        assert(is_digit(b[e2]));
    }
    assert(e1 == e2);
    assert(dec_digits(v1 as nat) == dec_digits(v2 as nat));
    lemma_digits_val_of_dec(v1 as nat);
    lemma_digits_val_of_dec(v2 as nat);
}

/// At one position there is at most one decimal token.
proof fn lemma_i64_token_unique(b: Seq<u8>, pos: int, v1: i64, e1: int, v2: i64, e2: int)
    requires
        i64_token_at(b, pos, v1, e1),
        i64_token_at(b, pos, v2, e2),
    ensures
        v1 == v2,
        e1 == e2,
{
    lemma_dec_i64_shape(v1 as int);
    lemma_dec_i64_shape(v2 as int);
    assert(b[pos] == b.subrange(pos, e1)[0]);
    assert(b[pos] == b.subrange(pos, e2)[0]);
    if b[pos] == 45 {
        assert(v1 < 0 && v2 < 0);
        lemma_split(b, pos, e1, seq![45u8], dec_digits((-(v1 as int)) as nat));
        lemma_split(b, pos, e2, seq![45u8], dec_digits((-(v2 as int)) as nat));
        assert(b.subrange(pos + 1, e1) == dec_digits((-(v1 as int)) as nat));
        assert(b.subrange(pos + 1, e2) == dec_digits((-(v2 as int)) as nat));
        let m1 = (-(v1 as int)) as u64;
        let m2 = (-(v2 as int)) as u64;
        assert(u64_token_at(b, pos + 1, m1, e1));
        assert(u64_token_at(b, pos + 1, m2, e2));
        lemma_u64_token_unique(b, pos + 1, m1, e1, m2, e2);
    } else {
        assert(v1 >= 0 && v2 >= 0);
        assert(u64_token_at(b, pos, v1 as u64, e1));
        assert(u64_token_at(b, pos, v2 as u64, e2));
        lemma_u64_token_unique(b, pos, v1 as u64, e1, v2 as u64, e2);
    }
}

/// Where the remaining bytes are a nonempty list followed by the closing
/// bytes, a decimal token for the first listed identifier stands there,
/// and what follows it is determined.
proof fn lemma_doc_suffix_token(b: Seq<u8>, pos: int, s: Seq<i64>)
    requires
        0 <= pos <= b.len(),
        s.len() > 0,
        b.subrange(pos, b.len() as int) == int_list(s) + seq![93u8, 125u8],
    ensures
        i64_token_at(b, pos, s[0], pos + dec_i64(s[0] as int).len()),
        s.len() > 1 ==> b[pos + dec_i64(s[0] as int).len()] == 44
            && b.subrange(pos + dec_i64(s[0] as int).len() + 1, b.len() as int)
                == int_list(s.drop_first()) + seq![93u8, 125u8],
        s.len() == 1 ==> b[pos + dec_i64(s[0] as int).len()] == 93
            && b.len() == pos + dec_i64(s[0] as int).len() + 2
            && b[pos + dec_i64(s[0] as int).len() + 1] == 125,
{
    let d = dec_i64(s[0] as int);
    lemma_dec_i64_shape(s[0] as int);
    if s.len() == 1 {
        assert(int_list(s) + seq![93u8, 125u8] =~= d + seq![93u8, 125u8]);
        lemma_split(b, pos, b.len() as int, d, seq![93u8, 125u8]);
        assert(b[pos + d.len()] == b.subrange(pos + d.len(), b.len() as int)[0]);
        assert(b[pos + d.len() + 1] == b.subrange(pos + d.len(), b.len() as int)[1]);
        assert(i64_token_at(b, pos, s[0], pos + d.len()));
    } else {
        let rest = seq![44u8] + int_list(s.drop_first()) + seq![93u8, 125u8];
        assert(int_list(s) + seq![93u8, 125u8] =~= d + rest);
        lemma_split(b, pos, b.len() as int, d, rest);
        assert(b[pos + d.len()] == b.subrange(pos + d.len(), b.len() as int)[0]);
        assert(rest[0] == 44);
        assert(i64_token_at(b, pos, s[0], pos + d.len()));
        let tail = int_list(s.drop_first()) + seq![93u8, 125u8];
        assert(rest =~= seq![44u8] + tail);
        lemma_split(b, pos + d.len(), b.len() as int, seq![44u8], tail);
        assert(b.subrange(pos + d.len() + 1, b.len() as int) == tail);
    }
}

/// The opening bytes, as a vector.
pub fn doc_prefix_bytes() -> (r: Vec<u8>)
    ensures
        r@ == doc_prefix(),
{
    let mut r: Vec<u8> = Vec::new();
    r.push(123);
    r.push(34);
    r.push(114);
    r.push(101);
    r.push(100);
    r.push(101);
    r.push(101);
    r.push(109);
    r.push(101);
    r.push(100);
    r.push(95);
    r.push(117);
    r.push(115);
    r.push(101);
    r.push(114);
    r.push(115);
    r.push(34);
    r.push(58);
    r.push(91);
    proof {
        assert(r@ =~= doc_prefix());
    }
    r
}

/// Serializes a list of identifiers into the persisted document.
pub fn encode_store(ids: &Vec<i64>) -> (r: Vec<u8>)
    ensures
        r@ == store_doc(ids@),
{
    let mut r = doc_prefix_bytes();
    let mut i: usize = 0;
    while i < ids.len()
        invariant
            i <= ids@.len(),
            r@ == doc_prefix() + int_list(ids@.take(i as int)),
        decreases ids@.len() - i,
    {
        let ghost taken = ids@.take(i as int);
        if i > 0 {
            r.push(44);
        }
        let mut digits = i64_to_dec(ids[i]);
        r.append(&mut digits);
        proof {
            lemma_int_list_push(taken, ids@[i as int]);
            assert(ids@.take(i + 1) =~= taken.push(ids@[i as int]));
            if i == 0 {
                assert(taken.len() == 0);
                assert(r@ =~= doc_prefix() + int_list(ids@.take(i + 1)));
            } else {
                assert(taken.len() > 0);
                assert(r@ =~= doc_prefix() + int_list(ids@.take(i + 1)));
            }
        }
        i += 1;
    }
    r.push(93);
    r.push(125);
    proof {
        assert(ids@.take(ids@.len() as int) =~= ids@);
        assert(r@ =~= store_doc(ids@));
    }
    r
}

/// Reads an unsigned decimal token. `None` exactly when no such token
/// stands at `pos`.
fn parse_u64(b: &Vec<u8>, pos: usize) -> (r: Option<(u64, usize)>)
    requires
        pos <= b@.len(),
    ensures
        match r {
            Some(t) => u64_token_at(b@, pos as int, t.0, t.1 as int),
            None => forall|v: u64, end: int| !u64_token_at(b@, pos as int, v, end),
        },
{
    let blen = b.len();
    if pos == blen || !(48 <= b[pos] && b[pos] <= 57) {
        proof {
            assert forall|v: u64, end: int| !u64_token_at(b@, pos as int, v, end) by {
                if u64_token_at(b@, pos as int, v, end) {
                    lemma_dec_digits_shape(v as nat);
                    assert(b@[pos as int] == b@.subrange(pos as int, end)[0]);
                }
            }
        }
        return None;
    }
    if b[pos] == 48 {
        // A leading zero: the only token is "0" itself.
        if pos + 1 < blen && 48 <= b[pos + 1] && b[pos + 1] <= 57 {
            proof {
                assert forall|v: u64, end: int| !u64_token_at(b@, pos as int, v, end) by {
                    if u64_token_at(b@, pos as int, v, end) {
                        lemma_dec_digits_shape(v as nat);
                        assert(b@[pos as int] == b@.subrange(pos as int, end)[0]);
                        assert(v == 0);
                        assert(end == pos + 1);
                    }
                }
            }
            return None;
        }
        proof {
            assert(b@.subrange(pos as int, pos + 1) =~= dec_digits(0));
        }
        return Some((0, pos + 1));
    }
    let mut end: usize = pos;
    let mut acc: u64 = 0;
    while end < blen && 48 <= b[end] && b[end] <= 57
        invariant
            pos <= end <= blen,
            blen == b@.len(),
            pos < blen,
            48 < b@[pos as int] <= 57,
            end > pos ==> acc == digits_val(b@.subrange(pos as int, end as int)),
            end == pos ==> acc == 0,
            forall|k: int| pos <= k < end ==> is_digit(#[trigger] b@[k]),
        decreases blen - end,
    {
        let d: u64 = (b[end] - 48) as u64;
        let ghost run = b@.subrange(pos as int, end as int);
        if acc > (u64::MAX - d) / 10 {
            // The digits already read denote more than any 64-bit value.
            proof {
                assert(acc * 10 + d > u64::MAX) by (nonlinear_arith)
                    requires acc > (u64::MAX - d) / 10, d <= 9,
                {
                    vstd::arithmetic::div_mod::lemma_fundamental_div_mod(
                        (u64::MAX - d) as int, 10);
                }
                let over = b@.subrange(pos as int, end + 1);
                assert(over.drop_last() =~= run);
                assert(end > pos) by {
                    if end == pos {
                        assert(digits_val(over)
                            == digits_val(run) * 10 + (over.last() - 48) as nat);
                    }
                }
                assert(digits_val(over) == acc * 10 + d);
                assert forall|v: u64, e: int| !u64_token_at(b@, pos as int, v, e) by {
                    if u64_token_at(b@, pos as int, v, e) {
                        lemma_dec_digits_shape(v as nat);
                        assert(e > end) by {
                            if e <= end {
                                assert(e < blen);
                                assert(!is_digit(b@[e]));
                                assert(is_digit(b@[e]));
                            }
                        }
                        let whole = b@.subrange(pos as int, e);
                        assert(whole =~= over + b@.subrange(end + 1, e));
                        lemma_digits_val_extend_ge(over, b@.subrange(end + 1, e));
                        lemma_digits_val_of_dec(v as nat);
                        assert(digits_val(whole) == v as nat);
                        assert(digits_val(whole) >= digits_val(over));
                    }
                }
            }
            return None;
        }
        proof {
            assert(acc * 10 + d <= u64::MAX) by (nonlinear_arith)
                requires acc <= (u64::MAX - d) / 10, d <= 9,
            {
                vstd::arithmetic::div_mod::lemma_fundamental_div_mod(
                    (u64::MAX - d) as int, 10);
            }
            let next = b@.subrange(pos as int, end + 1);
            assert(next.drop_last() =~= run);
            if end == pos {
                assert(digits_val(run) == 0);
            }
            assert(digits_val(next) == digits_val(run) * 10 + (next.last() - 48) as nat);
        }
        acc = acc * 10 + d;
        end += 1;
    }
    proof {
        let run = b@.subrange(pos as int, end as int);
        assert(end > pos);
        assert(run[0] == b@[pos as int]);
        lemma_dec_digits_of_val(run);
        assert(dec_digits(acc as nat) == run);
    }
    Some((acc, end))
}

/// Reads a decimal token, sign included. `None` exactly when no such
/// token stands at `pos`.
fn parse_i64(b: &Vec<u8>, pos: usize) -> (r: Option<(i64, usize)>)
    requires
        pos <= b@.len(),
    ensures
        match r {
            Some(t) => i64_token_at(b@, pos as int, t.0, t.1 as int),
            None => forall|v: i64, end: int| !i64_token_at(b@, pos as int, v, end),
        },
{
    let blen = b.len();
    if pos < blen && b[pos] == 45 {
        let inner = parse_u64(b, pos + 1);
        proof {
            // Every negative token at `pos` yields an unsigned token at `pos + 1`.
            assert forall|v: i64, end: int|
                i64_token_at(b@, pos as int, v, end) && v < 0
                implies u64_token_at(b@, pos + 1, (-(v as int)) as u64, end) by {
                lemma_dec_i64_shape(v as int);
                lemma_split(b@, pos as int, end, seq![45u8],
                    dec_digits((-(v as int)) as nat));
            }
            // And no nonnegative token starts with a minus sign.
            assert forall|v: i64, end: int|
                i64_token_at(b@, pos as int, v, end) implies v < 0 by {
                lemma_dec_i64_shape(v as int);
                assert(b@[pos as int] == b@.subrange(pos as int, end)[0]);
            }
        }
        match inner {
            None => {
                proof {
                    assert forall|v: i64, end: int|
                        !i64_token_at(b@, pos as int, v, end) by {}
                }
                None
            },
            Some((m, end)) => {
                if m == 0 || m > 9223372036854775808u64 {
                    proof {
                        assert forall|v: i64, e: int|
                            !i64_token_at(b@, pos as int, v, e) by {
                            if i64_token_at(b@, pos as int, v, e) {
                                let mv = (-(v as int)) as u64;
                                lemma_u64_token_unique(b@, pos + 1, mv, e, m, end as int);
                                assert(1 <= mv <= 9223372036854775808u64);
                            }
                        }
                    }
                    None
                } else {
                    let v: i64 = (-(m as i128)) as i64;
                    proof {
                        assert(v as int == -(m as int));
                        assert(b@.subrange(pos as int, end as int) =~= seq![45u8]
                            + dec_digits(m as nat)) by {
                            let s = b@.subrange(pos as int, end as int);
                            let d = dec_digits(m as nat);
                            assert(b@.subrange(pos + 1, end as int) == d);
                            assert(s.len() == 1 + d.len());
                            assert forall|i: int| 0 <= i < s.len()
                                implies s[i] == (seq![45u8] + d)[i] by {
                                assert(s[i] == b@[pos + i]);
                                if i >= 1 {
                                    assert(b@.subrange(pos + 1, end as int)[i - 1]
                                        == b@[pos + i]);
                                }
                            }
                        }
                        assert(dec_i64(v as int) == seq![45u8] + dec_digits(m as nat));
                        assert(i64_token_at(b@, pos as int, v, end as int));
                    }
                    Some((v, end))
                }
            },
        }
    } else {
        let inner = parse_u64(b, pos);
        proof {
            // Every token here is nonnegative and is an unsigned token.
            assert forall|v: i64, end: int|
                i64_token_at(b@, pos as int, v, end)
                implies v >= 0 && u64_token_at(b@, pos as int, v as u64, end) by {
                lemma_dec_i64_shape(v as int);
                assert(b@[pos as int] == b@.subrange(pos as int, end)[0]);
            }
        }
        match inner {
            None => {
                proof {
                    assert forall|v: i64, end: int|
                        !i64_token_at(b@, pos as int, v, end) by {}
                }
                None
            },
            Some((m, end)) => {
                if m > i64::MAX as u64 {
                    proof {
                        assert forall|v: i64, e: int|
                            !i64_token_at(b@, pos as int, v, e) by {
                            if i64_token_at(b@, pos as int, v, e) {
                                lemma_u64_token_unique(b@, pos as int, v as u64, e,
                                    m, end as int);
                            }
                        }
                    }
                    None
                } else {
                    let v: i64 = m as i64;
                    proof {
                        assert(dec_i64(v as int) == dec_digits(m as nat));
                        assert(i64_token_at(b@, pos as int, v, end as int));
                    }
                    Some((v, end))
                }
            },
        }
    }
}

/// Reads a persisted document back into the list it encodes. Returns
/// `Some` exactly on the encodings of lists, and then the encoded list.
pub fn decode_store(b: &Vec<u8>) -> (r: Option<Vec<i64>>)
    ensures
        match r {
            Some(ids) => b@ == store_doc(ids@),
            None => forall|ids: Seq<i64>| b@ != store_doc(ids),
        },
{
    let blen = b.len();
    let prefix = doc_prefix_bytes();
    if blen < 21 {
        proof {
            assert forall|ids: Seq<i64>| b@ != store_doc(ids) by {
                assert(store_doc(ids).len() >= 21);
            }
        }
        return None;
    }
    if !match_at(b, &prefix, 0) {
        proof {
            assert forall|ids: Seq<i64>| b@ != store_doc(ids) by {
                if b@ == store_doc(ids) {
                    assert(b@.subrange(0, 19) =~= doc_prefix());
                }
            }
        }
        return None;
    }
    if b[19] == 93 {
        // An empty list closes at once.
        if blen == 21 && b[20] == 125 {
            let ids: Vec<i64> = Vec::new();
            proof {
                assert(b@ =~= store_doc(ids@));
            }
            return Some(ids);
        }
        proof {
            assert forall|ids: Seq<i64>| b@ != store_doc(ids) by {
                if b@ == store_doc(ids) {
                    if ids.len() > 0 {
                        lemma_dec_i64_shape(ids[0] as int);
                        assert(b@[19] == (int_list(ids) + seq![93u8, 125u8])[0]);
                        assert(b@[19] == dec_i64(ids[0] as int)[0]);
                    } else {
                        assert(b@.len() == 21);
                        assert(b@[20] == 125);
                    }
                }
            }
        }
        return None;
    }
    let mut ids: Vec<i64> = Vec::new();
    let mut pos: usize = 19;
    proof {
        assert(b@.subrange(0, 19) == doc_prefix());
        assert(b@.subrange(0, pos as int) =~= doc_prefix() + int_list_open(ids@));
        assert forall|cand: Seq<i64>| b@ == #[trigger] store_doc(cand)
            implies cand.len() > ids@.len() && cand.take(ids@.len() as int) =~= ids@
                && b@.subrange(pos as int, b@.len() as int)
                    == int_list(cand.skip(ids@.len() as int)) + seq![93u8, 125u8] by {
            if b@ == store_doc(cand) {
                assert(b@.subrange(0, b@.len() as int) =~= doc_prefix()
                    + (int_list(cand) + seq![93u8, 125u8]));
                lemma_split(b@, 0, b@.len() as int, doc_prefix(), int_list(cand) + seq![93u8, 125u8]);
                if cand.len() == 0 {
                    assert(b@.subrange(19, b@.len() as int) =~= seq![93u8, 125u8]);
                    assert(b@[19] == 93);
                }
                assert(cand.skip(0) =~= cand);
            }
        }
    }
    loop
        invariant
            blen == b@.len(),
            19 <= pos <= blen,
            b@.subrange(0, pos as int) == doc_prefix() + int_list_open(ids@),
            forall|cand: Seq<i64>| b@ == #[trigger] store_doc(cand)
                ==> cand.len() > ids@.len() && cand.take(ids@.len() as int) == ids@
                    && b@.subrange(pos as int, blen as int)
                        == int_list(cand.skip(ids@.len() as int)) + seq![93u8, 125u8],
        decreases blen - pos,
    {
        let parsed = parse_i64(b, pos);
        proof {
            // Whatever document the bytes could be, a token must stand here.
            assert forall|cand: Seq<i64>| b@ == #[trigger] store_doc(cand)
                implies i64_token_at(b@, pos as int, cand.skip(ids@.len() as int)[0],
                    pos + dec_i64(cand.skip(ids@.len() as int)[0] as int).len()) by {
                lemma_doc_suffix_token(b@, pos as int, cand.skip(ids@.len() as int));
            }
        }
        let (v, end) = match parsed {
            None => {
                proof {
                    assert forall|cand: Seq<i64>| b@ != store_doc(cand) by {}
                }
                return None;
            },
            Some(t) => t,
        };
        let ghost old_ids = ids@;
        proof {
            // Line the parsed token up with any candidate document.
            assert forall|cand: Seq<i64>| b@ == #[trigger] store_doc(cand)
                implies cand.skip(old_ids.len() as int)[0] == v
                    && pos + dec_i64(v as int).len() == end by {
                let s = cand.skip(old_ids.len() as int);
                lemma_doc_suffix_token(b@, pos as int, s);
                lemma_i64_token_unique(b@, pos as int, v, end as int,
                    s[0], pos + dec_i64(s[0] as int).len());
            }
        }
        ids.push(v);
        proof {
            lemma_int_list_open_push(old_ids, v);
            assert(b@.subrange(pos as int, end as int) == dec_i64(v as int));
            assert(b@.subrange(0, end as int)
                =~= b@.subrange(0, pos as int) + b@.subrange(pos as int, end as int));
            assert(b@.subrange(0, end as int)
                =~= doc_prefix() + (int_list_open(old_ids) + dec_i64(v as int)));
            assert(b@.subrange(0, end as int) == doc_prefix() + int_list(ids@));
            assert forall|cand: Seq<i64>| b@ == #[trigger] store_doc(cand)
                implies cand.len() >= ids@.len() && cand.take(ids@.len() as int) == ids@
                    && b@.subrange(end as int, blen as int)
                        == (if cand.len() == ids@.len() { seq![93u8, 125u8] } else {
                            seq![44u8] + int_list(cand.skip(ids@.len() as int))
                                + seq![93u8, 125u8]
                        }) by {
                let s = cand.skip(old_ids.len() as int);
                lemma_doc_suffix_token(b@, pos as int, s);
                assert(s[0] == v && pos + dec_i64(v as int).len() == end);
                assert(cand.take(ids@.len() as int) =~= cand.take(old_ids.len() as int)
                    .push(cand[old_ids.len() as int]));
                assert(cand[old_ids.len() as int] == s[0]);
                if s.len() == 1 {
                    assert(cand.len() == ids@.len());
                    assert(b@.subrange(end as int, blen as int) =~= seq![93u8, 125u8]);
                } else {
                    assert(cand.len() > ids@.len());
                    assert(s.drop_first() =~= cand.skip(ids@.len() as int));
                    let tail2 = int_list(cand.skip(ids@.len() as int)) + seq![93u8, 125u8];
                    assert(b@.subrange(end as int, blen as int) =~= seq![44u8] + tail2) by {
                        let s2 = b@.subrange(end as int, blen as int);
                        assert(b@.subrange(end + 1, blen as int) == tail2);
                        assert(s2.len() == 1 + tail2.len());
                        assert forall|i: int| 0 <= i < s2.len()
                            implies s2[i] == (seq![44u8] + tail2)[i] by {
                            assert(s2[i] == b@[end + i]);
                            if i >= 1 {
                                assert(b@.subrange(end + 1, blen as int)[i - 1]
                                    == b@[end + i]);
                            }
                        }
                    }
                    assert(seq![44u8] + tail2
                        =~= seq![44u8] + int_list(cand.skip(ids@.len() as int))
                            + seq![93u8, 125u8]);
                }
            }
        }
        if end < blen && b[end] == 44 {
            // A comma: a further identifier follows.
            proof {
                assert(b@.subrange(0, end + 1)
                    =~= b@.subrange(0, end as int) + seq![b@[end as int]]);
                assert(b@.subrange(0, end + 1) == doc_prefix() + int_list_open(ids@)) by {
                    assert(ids@.drop_last() =~= old_ids);
                    assert(int_list_open(ids@) == int_list_open(old_ids)
                        + dec_i64(v as int) + seq![44u8]);
                    assert(b@.subrange(0, end + 1) =~= doc_prefix()
                        + (int_list_open(old_ids) + dec_i64(v as int)) + seq![44u8]);
                    assert(int_list_open(old_ids) + dec_i64(v as int) + seq![44u8]
                        =~= int_list_open(ids@));
                }
                assert forall|cand: Seq<i64>| b@ == #[trigger] store_doc(cand)
                    implies cand.len() > ids@.len() && cand.take(ids@.len() as int) == ids@
                        && b@.subrange(end + 1, blen as int)
                            == int_list(cand.skip(ids@.len() as int)) + seq![93u8, 125u8] by {
                    if cand.len() == ids@.len() {
                        assert(b@.subrange(end as int, blen as int) =~= seq![93u8, 125u8]);
                        assert(b@[end as int] == 93);
                    }
                    let tail = seq![44u8] + int_list(cand.skip(ids@.len() as int))
                        + seq![93u8, 125u8];
                    assert(b@.subrange(end as int, blen as int) =~= seq![44u8]
                        + (int_list(cand.skip(ids@.len() as int)) + seq![93u8, 125u8]));
                    lemma_split(b@, end as int, blen as int, seq![44u8],
                        int_list(cand.skip(ids@.len() as int)) + seq![93u8, 125u8]);
                }
            }
            pos = end + 1;
        } else if end < blen && b[end] == 93 && blen - end == 2 && b[end + 1] == 125 {
            // The closing bytes: the document ends exactly here.
            proof {
                assert(b@.subrange(end as int, blen as int) =~= seq![93u8, 125u8]) by {
                    assert(b@.subrange(end as int, blen as int).len() == 2);
                }
                assert(b@ =~= b@.subrange(0, end as int)
                    + b@.subrange(end as int, blen as int));
                assert(b@ =~= doc_prefix() + int_list(ids@) + seq![93u8, 125u8]);
            }
            return Some(ids);
        } else {
            // Neither a separator nor the closing bytes: no document.
            proof {
                assert forall|cand: Seq<i64>| b@ != store_doc(cand) by {
                    if b@ == store_doc(cand) {
                        if cand.len() == ids@.len() {
                            assert(b@.subrange(end as int, blen as int)
                                =~= seq![93u8, 125u8]);
                            assert(b@[end as int] == 93);
                            assert(b@[end + 1] == 125);
                            assert(blen == end + 2);
                        } else {
                            assert(b@.subrange(end as int, blen as int)[0] == 44);
                            assert(b@[end as int] == 44);
                            assert(end < blen);
                        }
                    }
                }
            }
            return None;
        }
    }
}

/// Law: one byte string persists at most one list, so the document on
/// disk determines the ledger that was written.
pub proof fn lemma_store_doc_injective(a: Seq<i64>, c: Seq<i64>)
    requires
        store_doc(a) == store_doc(c),
    ensures
        a == c,
    decreases a.len(),
{
    let b = store_doc(a);
    assert(b.subrange(0, b.len() as int) =~= b);
    assert(b.subrange(0, b.len() as int) =~= doc_prefix()
        + (int_list(a) + seq![93u8, 125u8]));
    lemma_split(b, 0, b.len() as int, doc_prefix(), int_list(a) + seq![93u8, 125u8]);
    assert(b.subrange(19, b.len() as int) == int_list(a) + seq![93u8, 125u8]);
    assert(b.subrange(0, b.len() as int) =~= doc_prefix()
        + (int_list(c) + seq![93u8, 125u8]));
    lemma_split(b, 0, b.len() as int, doc_prefix(), int_list(c) + seq![93u8, 125u8]);
    assert(b.subrange(19, b.len() as int) == int_list(c) + seq![93u8, 125u8]);
    if a.len() == 0 || c.len() == 0 {
        if a.len() == 0 && c.len() > 0 {
            lemma_dec_i64_shape(c[0] as int);
            assert((int_list(a) + seq![93u8, 125u8])[0] == 93);
            assert((int_list(c) + seq![93u8, 125u8])[0] == dec_i64(c[0] as int)[0]);
        }
        if c.len() == 0 && a.len() > 0 {
            lemma_dec_i64_shape(a[0] as int);
            assert((int_list(c) + seq![93u8, 125u8])[0] == 93);
            assert((int_list(a) + seq![93u8, 125u8])[0] == dec_i64(a[0] as int)[0]);
        }
        if a.len() == 0 && c.len() == 0 {
            assert(a =~= c);
        }
    } else {
        lemma_doc_suffix_token(b, 19, a);
        lemma_doc_suffix_token(b, 19, c);
        lemma_i64_token_unique(b, 19, a[0], 19 + dec_i64(a[0] as int).len() as int,
            c[0], 19 + dec_i64(c[0] as int).len() as int);
        let e: int = 19 + dec_i64(a[0] as int).len() as int;
        assert(e == 19 + dec_i64(c[0] as int).len() as int);
        if a.len() == 1 || c.len() == 1 {
            if a.len() == 1 && c.len() > 1 {
                assert(b[e] == 93);
                assert(b[e] == 44);
            }
            if c.len() == 1 && a.len() > 1 {
                assert(b[e] == 93);
                assert(b[e] == 44);
            }
            if a.len() == 1 && c.len() == 1 {
                assert(a =~= c);
            }
        } else {
            assert(b.subrange(e + 1, b.len() as int)
                == int_list(a.drop_first()) + seq![93u8, 125u8]);
            assert(b.subrange(e + 1, b.len() as int)
                == int_list(c.drop_first()) + seq![93u8, 125u8]);
            let t = b.subrange(e + 1, b.len() as int);
            let inner_a = store_doc(a.drop_first());
            let inner_c = store_doc(c.drop_first());
            assert(inner_a =~= doc_prefix() + t) by {
                assert(int_list(a.drop_first()) + seq![93u8, 125u8] == t);
            }
            assert(inner_c =~= doc_prefix() + t) by {
                assert(int_list(c.drop_first()) + seq![93u8, 125u8] == t);
            }
            lemma_store_doc_injective(a.drop_first(), c.drop_first());
            assert(a.drop_first() == c.drop_first());
            assert forall|i: int| 0 <= i < a.len() implies a[i] == c[i] by {
                if i >= 1 {
                    assert(a.drop_first()[i - 1] == c.drop_first()[i - 1]);
                }
            }
            assert(a =~= c);
        }
    }
}

} // verus!
