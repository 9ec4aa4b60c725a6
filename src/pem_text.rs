//! PEM text: `-----BEGIN <label>-----`, a base64 body, `-----END <label>-----`.
use vstd::prelude::*;
use vstd::string::StringSliceAdditionalSpecFns;
use crate::certificate::{Certificate, CertificateView, der_encoding};
use crate::decode::{decode_der, copy_range};
use crate::error::CertError;
use crate::pem::{Pem, decode_pem};

verus! {

#[verifier::external_type_specification]
#[verifier::external_body]
pub struct ExDecodeError(base64::DecodeError);

/// The octets that the standard base64 decoder gives for `s`, if it accepts `s`.
pub uninterp spec fn base64_decoded(s: Seq<u8>) -> Option<Seq<u8>>;

/// The text that lossy UTF-8 decoding gives for `b`.
pub uninterp spec fn utf8_lossy(b: Seq<u8>) -> Seq<char>;

/// Relies on base64::decode (standard alphabet, padded): the decoded octets, or an error.
#[verifier::external_body]
fn decode_base64(s: &[u8]) -> (r: Result<Vec<u8>, base64::DecodeError>)
    ensures
        match r {
            Ok(v) => base64_decoded(s@) == Some(v@),
            Err(_) => base64_decoded(s@) is None,
        },
{
    base64::decode(s)
}

/// Relies on String::from_utf8_lossy: the text of the label octets.
#[verifier::external_body]
fn label_text(b: &[u8]) -> (r: String)
    ensures
        r@ == utf8_lossy(b@),
{
    String::from_utf8_lossy(b).into_owned()
}

pub const DASH: u8 = 0x2D;

/// `-----BEGIN `
pub open spec fn begin_marker() -> Seq<u8> {
    seq![DASH, DASH, DASH, DASH, DASH, 0x42u8, 0x45u8, 0x47u8, 0x49u8, 0x4Eu8, 0x20u8]
}

/// `-----END `
pub open spec fn end_marker() -> Seq<u8> {
    seq![DASH, DASH, DASH, DASH, DASH, 0x45u8, 0x4Eu8, 0x44u8, 0x20u8]
}

/// `-----`
pub open spec fn dashes() -> Seq<u8> {
    seq![DASH, DASH, DASH, DASH, DASH]
}

pub open spec fn is_space(b: u8) -> bool {
    b == 0x20 || b == 0x09 || b == 0x0A || b == 0x0D
}

pub open spec fn no_dash(s: Seq<u8>) -> bool {
    forall|i: int| 0 <= i < s.len() ==> s[i] != DASH
}

pub open spec fn all_space(s: Seq<u8>) -> bool {
    forall|i: int| 0 <= i < s.len() ==> is_space(s[i])
}

/// The octets of `s` that are not white space, in order.
pub open spec fn strip_space(s: Seq<u8>) -> Seq<u8>
    decreases s.len(),
{
    if s.len() == 0 {
        seq![]
    } else if is_space(s.last()) {
        strip_space(s.drop_last())
    } else {
        strip_space(s.drop_last()).push(s.last())
    }
}

/// A PEM text with the given label, body and trailing white space.
pub open spec fn pem_text(label: Seq<u8>, body: Seq<u8>, tail: Seq<u8>) -> Seq<u8> {
    begin_marker() + label + dashes() + body + end_marker() + label + dashes() + tail
}

/// The parts of a PEM text: neither label nor body holds a dash; only white space follows.
pub open spec fn pem_parts(label: Seq<u8>, body: Seq<u8>, tail: Seq<u8>) -> bool {
    no_dash(label) && no_dash(body) && all_space(tail)
}

/// Two positions that are each the first dash at or after `start` are the same.
proof fn lemma_first_dash(b: Seq<u8>, start: int, p: int, q: int)
    requires
        0 <= start <= p <= b.len(),
        start <= q < b.len(),
        no_dash(b.subrange(start, p)),
        p < b.len() ==> b[p] == DASH,
        no_dash(b.subrange(start, q)),
        b[q] == DASH,
    ensures
        p == q,
{
    if p < q {
        assert(b.subrange(start, q)[p - start] == b[p]);
    } else if q < p {
        assert(b.subrange(start, p)[q - start] == b[q]);
    }
}

/// Where the parts of a PEM text stand.
proof fn lemma_pem_layout(b: Seq<u8>, l: Seq<u8>, body: Seq<u8>, tail: Seq<u8>)
    requires
        pem_parts(l, body, tail),
        b == pem_text(l, body, tail),
    ensures
        ({
            let le = 11 + (l.len() as int);
            let bs = le + 5;
            let be = bs + (body.len() as int);
            &&& (b.len() as int) == be + 14 + (l.len() as int) + (tail.len() as int)
            &&& b.subrange(0, 11) == begin_marker()
            &&& b.subrange(11, le) == l
            &&& no_dash(b.subrange(11, le))
            &&& b[le] == DASH
            &&& b.subrange(le, bs) == dashes()
            &&& b.subrange(bs, be) == body
            &&& no_dash(b.subrange(bs, be))
            &&& b[be] == DASH
            &&& b.subrange(be, be + 9) == end_marker()
            &&& b.subrange(be + 9, be + 9 + (l.len() as int)) == l
            &&& b.subrange(be + 9 + (l.len() as int), be + 14 + (l.len() as int)) == dashes()
            &&& b.subrange(be + 14 + (l.len() as int), b.len() as int) == tail
        }),
{
    let le = 11 + (l.len() as int);
    let be = le + 5 + (body.len() as int);
    assert(b.subrange(0, 11) =~= begin_marker());
    assert(b.subrange(11, le) =~= l);
    assert(b.subrange(le, le + 5) =~= dashes());
    assert(b.subrange(le + 5, be) =~= body);
    assert(b.subrange(be, be + 9) =~= end_marker());
    assert(b.subrange(be + 9, be + 9 + (l.len() as int)) =~= l);
    assert(b.subrange(be + 9 + (l.len() as int), be + 14 + (l.len() as int)) =~= dashes());
    assert(b.subrange(be + 14 + (l.len() as int), b.len() as int) =~= tail);
    assert(b.subrange(le, le + 5)[0] == b[le]);
    assert(b.subrange(be, be + 9)[0] == b[be]);
}

/// Whether `b[pos..]` begins with `lit`.
fn has_at(b: &[u8], pos: usize, lit: &Vec<u8>) -> (r: bool)
    requires
        pos <= b@.len(),
    ensures
        r == (pos + lit@.len() <= b@.len() && b@.subrange(pos as int, pos + lit@.len()) == lit@),
{
    let blen = b.len();
    if lit.len() > blen - pos {
        return false;
    }
    let mut i: usize = 0;
    while i < lit.len()
        invariant
            blen == b@.len(),
            i <= lit@.len(),
            pos + lit@.len() <= b@.len(),
            b@.subrange(pos as int, pos + i) == lit@.subrange(0, i as int),
        decreases lit@.len() - i,
    {
        if b[pos + i] != lit[i] {
            assert(b@.subrange(pos as int, pos + lit@.len())[i as int] != lit@[i as int]);
            return false;
        }
        i += 1;
        assert(b@.subrange(pos as int, pos + i) =~= lit@.subrange(0, i as int));
    }
    assert(lit@.subrange(0, i as int) =~= lit@);
    true
}

/// The first dash at or after `pos`, or the end of `b`.
fn next_dash(b: &[u8], pos: usize) -> (r: usize)
    requires
        pos <= b@.len(),
    ensures
        pos <= r <= b@.len(),
        no_dash(b@.subrange(pos as int, r as int)),
        r < b@.len() ==> b@[r as int] == DASH,
{
    let mut i: usize = pos;
    while i < b.len() && b[i] != DASH
        invariant
            pos <= i <= b@.len(),
            no_dash(b@.subrange(pos as int, i as int)),
        decreases b@.len() - i,
    {
        i += 1;
        assert(forall|k: int| 0 <= k < i - pos ==> b@.subrange(pos as int, i as int)[k] == b@[pos + k]);
    }
    i
}

/// Splits a PEM text into label range and body range.
#[verifier::rlimit(60)]
fn split_pem(b: &[u8]) -> (r: Option<(usize, usize, usize, usize, usize)>)
    ensures
        match r {
            Some((ls, le, bs, be, ts)) => ls <= le <= bs <= be <= ts <= b@.len() && ({
                let l = b@.subrange(ls as int, le as int);
                let body = b@.subrange(bs as int, be as int);
                let tail = b@.subrange(ts as int, b@.len() as int);
                pem_parts(l, body, tail) && b@ == pem_text(l, body, tail)
            }),
            None => forall|l: Seq<u8>, body: Seq<u8>, tail: Seq<u8>|
                pem_parts(l, body, tail) ==> b@ != #[trigger] pem_text(l, body, tail),
        },
        forall|l: Seq<u8>, body: Seq<u8>, tail: Seq<u8>|
            pem_parts(l, body, tail) && b@ == #[trigger] pem_text(l, body, tail) ==> (r matches Some((ls, le, bs, be, _))
                && b@.subrange(ls as int, le as int) == l && b@.subrange(bs as int, be as int) == body),
{
    let begin: Vec<u8> = vec![DASH, DASH, DASH, DASH, DASH, 0x42u8, 0x45u8, 0x47u8, 0x49u8, 0x4Eu8, 0x20u8];
    let end: Vec<u8> = vec![DASH, DASH, DASH, DASH, DASH, 0x45u8, 0x4Eu8, 0x44u8, 0x20u8];
    let five: Vec<u8> = vec![DASH, DASH, DASH, DASH, DASH];
    assert(begin@ =~= begin_marker());
    assert(end@ =~= end_marker());
    assert(five@ =~= dashes());
    let blen = b.len();
    if !has_at(b, 0, &begin) {
        proof {
            assert forall|l: Seq<u8>, body: Seq<u8>, tail: Seq<u8>|
                pem_parts(l, body, tail) implies b@ != #[trigger] pem_text(l, body, tail) by {
                if b@ == pem_text(l, body, tail) {
                    lemma_pem_layout(b@, l, body, tail);
                }
            }
        }
        return None;
    }
    let le = next_dash(b, 11);
    if !has_at(b, le, &five) {
        proof {
            assert forall|l: Seq<u8>, body: Seq<u8>, tail: Seq<u8>|
                pem_parts(l, body, tail) implies b@ != #[trigger] pem_text(l, body, tail) by {
                if b@ == pem_text(l, body, tail) {
                    lemma_pem_layout(b@, l, body, tail);
                    lemma_first_dash(b@, 11, le as int, 11 + (l.len() as int));
                }
            }
        }
        return None;
    }
    let bs = le + 5;
    let be = next_dash(b, bs);
    let label_len = le - 11;
    if !has_at(b, be, &end) || b.len() - be - 9 < label_len + 5 {
        proof {
            assert forall|l: Seq<u8>, body: Seq<u8>, tail: Seq<u8>|
                pem_parts(l, body, tail) implies b@ != #[trigger] pem_text(l, body, tail) by {
                if b@ == pem_text(l, body, tail) {
                    lemma_pem_layout(b@, l, body, tail);
                    lemma_first_dash(b@, 11, le as int, 11 + (l.len() as int));
                    lemma_first_dash(b@, bs as int, be as int, bs + (body.len() as int));
                }
            }
        }
        return None;
    }
    let mut ok = true;
    let mut i: usize = 0;
    assert(b@.subrange(be + 9, be + 9) =~= b@.subrange(11, 11));
    while i < label_len
        invariant
            blen == b@.len(),
            11 + label_len == le,
            be + 9 + label_len + 5 <= b@.len(),
            i <= label_len,
            ok == (b@.subrange(be + 9, be + 9 + i) == b@.subrange(11, 11 + i)),
        decreases label_len - i,
    {
        if b[be + 9 + i] != b[11 + i] {
            ok = false;
        }
        proof {
            if ok {
                assert(b@.subrange(be + 9, be + 9 + i + 1) =~= b@.subrange(11, 11 + i + 1));
            } else {
                if b@.subrange(be + 9, be + 9 + i + 1) == b@.subrange(11, 11 + i + 1) {
                    assert(b@.subrange(be + 9, be + 9 + i) =~= b@.subrange(be + 9, be + 9 + i + 1).subrange(0, i as int));
                    assert(b@.subrange(11, 11 + i) =~= b@.subrange(11, 11 + i + 1).subrange(0, i as int));
                    assert(b@.subrange(be + 9, be + 9 + i + 1)[i as int] == b@[be + 9 + i]);
                    assert(b@.subrange(11, 11 + i + 1)[i as int] == b@[11 + i]);
                }
            }
        }
        i += 1;
    }
    let tail_start = be + 9 + label_len + 5;
    let mut j: usize = tail_start;
    while j < b.len() && (b[j] == 0x20 || b[j] == 0x09 || b[j] == 0x0A || b[j] == 0x0D)
        invariant
            tail_start <= j <= b@.len(),
            all_space(b@.subrange(tail_start as int, j as int)),
        decreases b@.len() - j,
    {
        j += 1;
        assert(forall|k: int| 0 <= k < j - tail_start ==> b@.subrange(tail_start as int, j as int)[k] == b@[tail_start + k]);
    }
    let closing = has_at(b, be + 9 + label_len, &five);
    if !ok || !closing || j < b.len() {
        proof {
            assert forall|l: Seq<u8>, body: Seq<u8>, tail: Seq<u8>|
                pem_parts(l, body, tail) implies b@ != #[trigger] pem_text(l, body, tail) by {
                if b@ == pem_text(l, body, tail) {
                    lemma_pem_layout(b@, l, body, tail);
                    lemma_first_dash(b@, 11, le as int, 11 + (l.len() as int));
                    lemma_first_dash(b@, bs as int, be as int, bs + (body.len() as int));
                    if j < b@.len() {
                        assert(b@.subrange(tail_start as int, b@.len() as int)[j - tail_start] == b@[j as int]);
                    }
                }
            }
        }
        return None;
    }
    proof {
        let l = b@.subrange(11, le as int);
        let body = b@.subrange(bs as int, be as int);
        let tail = b@.subrange(tail_start as int, b@.len() as int);
        assert(b@.subrange(be + 9, be + 9 + label_len) =~= l);
        assert(b@ =~= pem_text(l, body, tail));
        assert(pem_parts(l, body, tail));
        assert forall|l2: Seq<u8>, body2: Seq<u8>, tail2: Seq<u8>|
            pem_parts(l2, body2, tail2) && b@ == #[trigger] pem_text(l2, body2, tail2) implies
                l == l2 && body == body2 by {
            lemma_pem_layout(b@, l2, body2, tail2);
            lemma_first_dash(b@, 11, le as int, 11 + (l2.len() as int));
            lemma_first_dash(b@, bs as int, be as int, bs + (body2.len() as int));
        }
    }
    Some((11, le, bs, be, tail_start))
}

/// The octets of `b[start..end]` that are not white space.
fn strip_range(b: &[u8], start: usize, end: usize) -> (r: Vec<u8>)
    requires
        start <= end <= b@.len(),
    ensures
        r@ == strip_space(b@.subrange(start as int, end as int)),
{
    let mut r: Vec<u8> = Vec::new();
    let mut i: usize = start;
    assert(b@.subrange(start as int, start as int) =~= Seq::<u8>::empty());
    while i < end
        invariant
            start <= i <= end <= b@.len(),
            r@ == strip_space(b@.subrange(start as int, i as int)),
        decreases end - i,
    {
        let c = b[i];
        assert(b@.subrange(start as int, i + 1).drop_last() =~= b@.subrange(start as int, i as int));
        if !(c == 0x20 || c == 0x09 || c == 0x0A || c == 0x0D) {
            r.push(c);
        }
        i += 1;
    }
    r
}

/// Decodes the certificate in a PEM text whose label must be `expected_label`. A text that
/// is not a PEM container, or whose body is not base64, gives `ContainerFormat`; then the
/// label is checked and the payload decoded as `decode_pem` does.
pub fn decode_pem_text(text: &str, expected_label: &str, element: &str) -> (r: Result<
    Certificate,
    CertError,
>)
    ensures
        forall|l: Seq<u8>, body: Seq<u8>, tail: Seq<u8>|
            pem_parts(l, body, tail) && text.spec_bytes() == #[trigger] pem_text(l, body, tail)
                ==> match base64_decoded(strip_space(body)) {
                None => r == Err::<Certificate, CertError>(CertError::ContainerFormat),
                Some(p) => {
                    &&& utf8_lossy(l) != expected_label@ ==> (r matches Err(
                        CertError::InvalidPemLabel { label },
                    ) && label@ == utf8_lossy(l))
                    &&& utf8_lossy(l) == expected_label@ ==> {
                        &&& r matches Ok(c) ==> c@.valid() && der_encoding(c@) == p
                        &&& forall|m: CertificateView|
                            m.valid() && #[trigger] der_encoding(m) == p ==> (r matches Ok(c)
                                && c@ == m)
                    }
                },
            },
        (forall|l: Seq<u8>, body: Seq<u8>, tail: Seq<u8>|
            pem_parts(l, body, tail) ==> text.spec_bytes() != #[trigger] pem_text(l, body, tail))
            ==> r == Err::<Certificate, CertError>(CertError::ContainerFormat),
        r matches Err(CertError::Asn1Deserialization { element: el, .. }) ==> el@ == element@,
{
    let b = text.as_bytes();
    match split_pem(b) {
        None => Err(CertError::ContainerFormat),
        Some((ls, le, bs, be, _)) => {
            let payload = strip_range(b, bs, be);
            let data = match decode_base64(payload.as_slice()) {
                Ok(d) => d,
                Err(_) => {
                    return Err(CertError::ContainerFormat);
                },
            };
            let label_octets = copy_range(b, ls, le);
            let pem = Pem { label: label_text(label_octets.as_slice()), data };
            decode_pem(&pem, expected_label, element)
        },
    }
}

} // verus!
