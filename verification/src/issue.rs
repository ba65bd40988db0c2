//! The pure half of the card-issuer exchange: building the request body
//! the issuer is asked with, and trimming the code out of its plain-text
//! response. The HTTP call itself lives outside the library.

use vstd::prelude::*;
use crate::text::dec_digits;
use crate::text::u64_to_dec;

verus! {

/// ASCII whitespace, as it may surround the issued code.
pub open spec fn is_ws(b: u8) -> bool {
    b == 32 || b == 9 || b == 10 || b == 13
}

/// The byte string without its leading whitespace.
pub open spec fn trim_front(s: Seq<u8>) -> Seq<u8>
    decreases s.len(),
{
    if s.len() > 0 && is_ws(s[0]) {
        trim_front(s.drop_first())
    } else {
        s
    }
}

/// The byte string without its trailing whitespace.
pub open spec fn trim_back(s: Seq<u8>) -> Seq<u8>
    decreases s.len(),
{
    if s.len() > 0 && is_ws(s.last()) {
        trim_back(s.drop_last())
    } else {
        s
    }
}

/// The byte string without leading and trailing whitespace.
pub open spec fn trimmed(s: Seq<u8>) -> Seq<u8> {
    trim_back(trim_front(s))
}

proof fn lemma_trim_front_skip(s: Seq<u8>, i: int)
    requires
        0 <= i <= s.len(),
        forall|k: int| 0 <= k < i ==> is_ws(#[trigger] s[k]),
    ensures
        trim_front(s) == trim_front(s.skip(i)),
    decreases i,
{
    if i == 0 {
        assert(s.skip(0) =~= s);
    } else {
        assert(s.len() > 0 && is_ws(s[0]));
        assert(s.drop_first() =~= s.skip(1));
        lemma_trim_front_skip(s.skip(1), i - 1);
        assert(s.skip(1).skip(i - 1) =~= s.skip(i));
    }
}

proof fn lemma_trim_back_take(s: Seq<u8>, j: int)
    requires
        0 <= j <= s.len(),
        forall|k: int| j <= k < s.len() ==> is_ws(#[trigger] s[k]),
    ensures
        trim_back(s) == trim_back(s.take(j)),
    decreases s.len() - j,
{
    if j < s.len() {
        assert(is_ws(s.last()));
        assert(s.drop_last() =~= s.take(s.len() - 1));
        lemma_trim_back_take(s.take(s.len() - 1), j);
        assert(s.take(s.len() - 1).take(j) =~= s.take(j));
    } else {
        assert(s.take(j) =~= s);
    }
}

/// The issued code, as the issuer's response carries it: the response
/// body without surrounding whitespace.
pub fn code_from_response(body: &Vec<u8>) -> (r: Vec<u8>)
    ensures
        r@ == trimmed(body@),
{
    let blen = body.len();
    let mut lo: usize = 0;
    while lo < blen && (body[lo] == 32 || body[lo] == 9 || body[lo] == 10 || body[lo] == 13)
        invariant
            blen == body@.len(),
            lo <= blen,
            forall|k: int| 0 <= k < lo ==> is_ws(#[trigger] body@[k]),
        decreases blen - lo,
    {
        lo += 1;
    }
    let mut hi: usize = blen;
    while hi > lo && (body[hi - 1] == 32 || body[hi - 1] == 9 || body[hi - 1] == 10
        || body[hi - 1] == 13)
        invariant
            blen == body@.len(),
            lo <= hi <= blen,
            forall|k: int| 0 <= k < lo ==> is_ws(#[trigger] body@[k]),
            lo == blen || !is_ws(body@[lo as int]),
            forall|k: int| hi <= k < blen ==> is_ws(#[trigger] body@[k]),
        decreases hi,
    {
        hi -= 1;
    }
    let mut r: Vec<u8> = Vec::new();
    let mut i: usize = lo;
    while i < hi
        invariant
            lo <= i <= hi <= blen,
            blen == body@.len(),
            r@ == body@.subrange(lo as int, i as int),
        decreases hi - i,
    {
        r.push(body[i]);
        proof {
            assert(r@ =~= body@.subrange(lo as int, i + 1));
        }
        i += 1;
    }
    proof {
        let t = body@.skip(lo as int);
        lemma_trim_front_skip(body@, lo as int);
        assert(trim_front(t) == t) by {
            if t.len() > 0 {
                assert(t[0] == body@[lo as int]);
            }
        }
        lemma_trim_back_take(t, hi - lo);
        assert(trim_back(t.take(hi - lo)) == t.take(hi - lo)) by {
            let u = t.take(hi - lo);
            if u.len() > 0 {
                assert(u.last() == body@[hi - 1]);
                assert(!is_ws(body@[hi - 1]));
            }
        }
        assert(t.take(hi - lo) =~= body@.subrange(lo as int, hi as int));
        assert(r@ == trimmed(body@));
    }
    r
}

/// A lowercase hexadecimal digit.
pub open spec fn hex_digit(n: u8) -> u8 {
    if n < 10 {
        (n + 48) as u8
    } else {
        (n + 87) as u8
    }
}

/// JSON string escaping of one byte: quote and backslash get a backslash,
/// control bytes a `\u00..` escape, everything else stands as it is.
pub open spec fn esc_byte(b: u8) -> Seq<u8> {
    if b == 34 {
        seq![92u8, 34u8]
    } else if b == 92 {
        seq![92u8, 92u8]
    } else if b < 32 {
        seq![92u8, 117u8, 48u8, 48u8, hex_digit(b / 16), hex_digit(b % 16)]
    } else {
        seq![b]
    }
}

/// JSON string escaping of a byte string.
pub open spec fn json_escaped(s: Seq<u8>) -> Seq<u8>
    decreases s.len(),
{
    if s.len() == 0 {
        Seq::empty()
    } else {
        json_escaped(s.drop_last()) + esc_byte(s.last())
    }
}

fn json_escape(s: &Vec<u8>) -> (r: Vec<u8>)
    ensures
        r@ == json_escaped(s@),
{
    let mut r: Vec<u8> = Vec::new();
    let mut i: usize = 0;
    while i < s.len()
        invariant
            i <= s@.len(),
            r@ == json_escaped(s@.take(i as int)),
        decreases s@.len() - i,
    {
        let b = s[i];
        if b == 34 {
            r.push(92);
            r.push(34);
        } else if b == 92 {
            r.push(92);
            r.push(92);
        } else if b < 32 {
            r.push(92);
            r.push(117);
            r.push(48);
            r.push(48);
            let hi = b / 16;
            let lo = b % 16;
            r.push(if hi < 10 { hi + 48 } else { hi + 87 });
            r.push(if lo < 10 { lo + 48 } else { lo + 87 });
        } else {
            r.push(b);
        }
        proof {
            let next = s@.take(i + 1);
            assert(next.drop_last() =~= s@.take(i as int));
            assert(next.last() == s@[i as int]);
            assert(r@ =~= json_escaped(next));
        }
        i += 1;
    }
    proof {
        assert(s@.take(s@.len() as int) =~= s@);
    }
    r
}

/// The bytes `{"days_per_card":`.
pub open spec fn body_open() -> Seq<u8> {
    seq![
        123u8, 34u8, 100u8, 97u8, 121u8, 115u8, 95u8, 112u8, 101u8, 114u8,
        95u8, 99u8, 97u8, 114u8, 100u8, 34u8, 58u8,
    ]
}

/// The bytes `,"num_cards":1,"secret":"`.
pub open spec fn body_mid() -> Seq<u8> {
    seq![
        44u8, 34u8, 110u8, 117u8, 109u8, 95u8, 99u8, 97u8, 114u8, 100u8,
        115u8, 34u8, 58u8, 49u8, 44u8, 34u8, 115u8, 101u8, 99u8, 114u8,
        101u8, 116u8, 34u8, 58u8, 34u8,
    ]
}

/// The whole JSON body of an issue request: one card, the configured
/// duration, and the issuer's shared secret.
pub open spec fn request_body(days: nat, secret: Seq<u8>) -> Seq<u8> {
    body_open() + dec_digits(days) + body_mid() + json_escaped(secret) + seq![34u8, 125u8]
}

/// Builds the body of the issue request.
pub fn issue_request_body(days: u32, secret: &Vec<u8>) -> (r: Vec<u8>)
    ensures
        r@ == request_body(days as nat, secret@),
{
    let mut r: Vec<u8> = Vec::new();
    r.push(123);
    r.push(34);
    r.push(100);
    r.push(97);
    r.push(121);
    r.push(115);
    r.push(95);
    r.push(112);
    r.push(101);
    r.push(114);
    r.push(95);
    r.push(99);
    r.push(97);
    r.push(114);
    r.push(100);
    r.push(34);
    r.push(58);
    proof {
        assert(r@ =~= body_open());
    }
    let mut days_dec = u64_to_dec(days as u64);
    r.append(&mut days_dec);
    r.push(44);
    r.push(34);
    r.push(110);
    r.push(117);
    r.push(109);
    r.push(95);
    r.push(99);
    r.push(97);
    r.push(114);
    r.push(100);
    r.push(115);
    r.push(34);
    r.push(58);
    r.push(49);
    r.push(44);
    r.push(34);
    r.push(115);
    r.push(101);
    r.push(99);
    r.push(114);
    r.push(101);
    r.push(116);
    r.push(34);
    r.push(58);
    r.push(34);
    proof {
        assert(r@ =~= body_open() + dec_digits(days as nat) + body_mid());
    }
    let mut esc = json_escape(secret);
    r.append(&mut esc);
    r.push(34);
    r.push(125);
    proof {
        assert(r@ =~= request_body(days as nat, secret@));
    }
    r
}

} // verus!
