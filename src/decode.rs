//! The DER decoder for certificates, with the version guard on the body.
use vstd::prelude::*;
use crate::der::{
    tlv, parse_tlv, length_octets, expect_element, lemma_parse_tlv, lemma_tlv_canonical,
    CONTENT_LIMIT, DerError,
};
use crate::error::CertError;
use crate::certificate::{
    Certificate, CertificateView, der_encoding, bit_string_content, TAG_BIT_STRING,
    TBSCertificate, TbsView, Version, version_encoding, field_tag, valid_serial, is_minimal_integer, TAG_INTEGER, TAG_VERSION,
    Extension, ExtensionView, extension_encoding, extension_content, extensions_content,
    extensions_field, extensions_view, valid_extension, valid_extensions, critical_encoding, lemma_extensions_prefix,
    lemma_extensions_step, TAG_BOOLEAN, TAG_OCTET_STRING, TAG_OID, TAG_SEQUENCE, TAG_EXTENSIONS,
};

verus! {

/// `b[pos..end]` begins with `p`.
pub open spec fn at(b: Seq<u8>, pos: int, end: int, p: Seq<u8>) -> bool {
    &&& 0 <= pos
    &&& pos + p.len() <= end
    &&& b.subrange(pos, pos + p.len()) == p
}

pub proof fn lemma_at_concat(b: Seq<u8>, pos: int, end: int, p: Seq<u8>, q: Seq<u8>)
    requires
        at(b, pos, end, p + q),
        end <= b.len(),
    ensures
        at(b, pos, end, p),
        at(b, pos + p.len(), end, q),
{
    let w = b.subrange(pos, pos + (p + q).len());
    assert(b.subrange(pos, pos + p.len()) =~= w.subrange(0, p.len() as int));
    assert(w.subrange(0, p.len() as int) =~= p);
    assert(b.subrange(pos + p.len(), pos + p.len() + q.len()) =~= w.subrange(
        p.len() as int,
        w.len() as int,
    ));
    assert(w.subrange(p.len() as int, w.len() as int) =~= q);
}

/// Reads the element with `tag` at `pos`; returns where its content starts and where it ends.
pub fn read_content(b: &[u8], pos: usize, end: usize, tag: u8) -> (r: Result<(usize, usize), DerError>)
    requires
        pos <= end <= b@.len(),
    ensures
        r matches Ok((cs, next)) ==> pos < cs <= next <= end && next - cs < CONTENT_LIMIT
            && b@.subrange(pos as int, next as int) == tlv(tag, b@.subrange(cs as int, next as int)),
        forall|c: Seq<u8>|
            c.len() < CONTENT_LIMIT && #[trigger] at(b@, pos as int, end as int, tlv(tag, c)) ==> (
            r matches Ok((cs, next)) && b@.subrange(cs as int, next as int) == c && next == pos
                + tlv(tag, c).len()),
{
    let ghost s = b@.subrange(pos as int, end as int);
    let r = expect_element(b, pos, end, tag);
    proof {
        if parse_tlv(s) is Some {
            lemma_tlv_canonical(s);
            let (t, h, n) = parse_tlv(s).unwrap();
            assert(s.subrange(0, (h + n) as int) =~= b@.subrange(pos as int, pos + h + n));
            assert(s.subrange(h as int, (h + n) as int) =~= b@.subrange(pos + h, pos + h + n));
        }
        assert forall|c: Seq<u8>|
            c.len() < CONTENT_LIMIT && #[trigger] at(b@, pos as int, end as int, tlv(tag, c)) implies (
            r matches Ok((cs, next)) && b@.subrange(cs as int, next as int) == c && next == pos
                + tlv(tag, c).len()) by {
            let len = tlv(tag, c).len() as int;
            let rest = b@.subrange(pos + len, end as int);
            assert(s =~= tlv(tag, c) + rest);
            lemma_parse_tlv(tag, c, rest);
            assert(b@.subrange(pos + 1 + length_octets(c.len()).len(), pos + len) =~= s.subrange(
                1 + length_octets(c.len()).len() as int,
                len,
            ));
        }
    }
    r
}

/// Copies `b[start..end]` into a new vector.
pub fn copy_range(b: &[u8], start: usize, end: usize) -> (r: Vec<u8>)
    requires
        start <= end <= b@.len(),
    ensures
        r@ == b@.subrange(start as int, end as int),
{
    let mut r: Vec<u8> = Vec::new();
    let mut i: usize = start;
    while i < end
        invariant
            start <= i <= end <= b@.len(),
            r@ == b@.subrange(start as int, i as int),
        decreases end - i,
    {
        r.push(b[i]);
        i += 1;
        assert(r@ =~= b@.subrange(start as int, i as int));
    }
    r
}

/// Reads the element with `tag` at `pos` and copies its content.
pub fn read_value(b: &[u8], pos: usize, end: usize, tag: u8) -> (r: Result<(Vec<u8>, usize), DerError>)
    requires
        pos <= end <= b@.len(),
    ensures
        r matches Ok((v, next)) ==> pos < next <= end && v@.len() < CONTENT_LIMIT
            && b@.subrange(pos as int, next as int) == tlv(tag, v@),
        forall|c: Seq<u8>|
            c.len() < CONTENT_LIMIT && #[trigger] at(b@, pos as int, end as int, tlv(tag, c)) ==> (
            r matches Ok((v, next)) && v@ == c && next == pos + tlv(tag, c).len()),
{
    let (cs, next) = read_content(b, pos, end, tag)?;
    Ok((copy_range(b, cs, next), next))
}

/// Where the parts of an extension stand inside its SEQUENCE content `b[s..e]`.
proof fn lemma_extension_layout(b: Seq<u8>, s: int, e: int, x: ExtensionView)
    requires
        0 <= s <= e <= b.len(),
        b.subrange(s, e) == extension_content(x),
        valid_extension(x),
    ensures
        at(b, s, e, tlv(TAG_OID, x.id)),
        x.id.len() > 0,
        ({
            let id_end = s + tlv(TAG_OID, x.id).len();
            let value_start = id_end + critical_encoding(x.critical).len();
            &&& id_end < e
            &&& x.critical ==> b[id_end] == TAG_BOOLEAN && at(b, id_end, e, tlv(TAG_BOOLEAN, seq![0xFFu8]))
            &&& !x.critical ==> b[id_end] != TAG_BOOLEAN && value_start == id_end
            &&& at(b, value_start, e, tlv(TAG_OCTET_STRING, x.value))
            &&& value_start + tlv(TAG_OCTET_STRING, x.value).len() == e
        }),
{
    let a = tlv(TAG_OID, x.id);
    let c = critical_encoding(x.critical);
    let v = tlv(TAG_OCTET_STRING, x.value);
    assert(at(b, s, e, a + c + v)) by {
        assert(b.subrange(s, s + (a + c + v).len()) =~= b.subrange(s, e));
    }
    lemma_at_concat(b, s, e, a + c, v);
    lemma_at_concat(b, s, e, a, c);
    assert(tlv(TAG_BOOLEAN, seq![0xFFu8]) =~= critical_encoding(true));
    assert(b[s + a.len()] == (c + v)[0]) by {
        assert(b.subrange(s, e)[a.len() as int] == (a + c + v)[a.len() as int]);
    }
}

/// Decodes one extension at `pos`.
pub fn decode_extension(b: &[u8], pos: usize, end: usize) -> (r: Result<(Extension, usize), DerError>)
    requires
        pos <= end <= b@.len(),
    ensures
        r matches Ok((x, next)) ==> pos < next <= end && valid_extension(x@)
            && b@.subrange(pos as int, next as int) == extension_encoding(x@),
        forall|e: ExtensionView|
            valid_extension(e) && #[trigger] at(b@, pos as int, end as int, extension_encoding(e))
                ==> (r matches Ok((x, next)) && x@ == e && next == pos + extension_encoding(e).len()),
{
    let (s, e) = read_content(b, pos, end, TAG_SEQUENCE)?;
    let ghost seqc = b@.subrange(s as int, e as int);
    let ghost none = forall|x: ExtensionView|
        valid_extension(x) && #[trigger] at(b@, pos as int, end as int, extension_encoding(x))
            ==> false;
    let (id, id_end) = match read_value(b, s, e, TAG_OID) {
        Ok(p) => p,
        Err(err) => {
            proof {
                assert forall|x: ExtensionView|
                    valid_extension(x) && #[trigger] at(b@, pos as int, end as int, extension_encoding(x))
                    implies false by {
                    lemma_extension_layout(b@, s as int, e as int, x);
                }
            }
            return Err(err);
        },
    };
    if id.len() == 0 {
        proof {
            assert forall|x: ExtensionView|
                valid_extension(x) && #[trigger] at(b@, pos as int, end as int, extension_encoding(x))
                implies false by {
                lemma_extension_layout(b@, s as int, e as int, x);
            }
        }
        return Err(DerError::InvalidValue);
    }
    let mut critical = false;
    let mut value_start = id_end;
    if id_end < e && b[id_end] == TAG_BOOLEAN {
        let (flag, q) = match read_value(b, id_end, e, TAG_BOOLEAN) {
            Ok(p) => p,
            Err(err) => {
                proof {
                    assert forall|x: ExtensionView|
                        valid_extension(x) && #[trigger] at(b@, pos as int, end as int, extension_encoding(x))
                        implies false by {
                        lemma_extension_layout(b@, s as int, e as int, x);
                    }
                }
                return Err(err);
            },
        };
        if flag.len() != 1 || flag[0] != 0xFF {
            proof {
                assert forall|x: ExtensionView|
                    valid_extension(x) && #[trigger] at(b@, pos as int, end as int, extension_encoding(x))
                    implies false by {
                    lemma_extension_layout(b@, s as int, e as int, x);
                }
            }
            return Err(DerError::InvalidValue);
        }
        critical = true;
        value_start = q;
    }
    let (value, value_end) = match read_value(b, value_start, e, TAG_OCTET_STRING) {
        Ok(p) => p,
        Err(err) => {
            proof {
                assert forall|x: ExtensionView|
                    valid_extension(x) && #[trigger] at(b@, pos as int, end as int, extension_encoding(x))
                    implies false by {
                    lemma_extension_layout(b@, s as int, e as int, x);
                }
            }
            return Err(err);
        },
    };
    if value_end != e {
        proof {
            assert forall|x: ExtensionView|
                valid_extension(x) && #[trigger] at(b@, pos as int, end as int, extension_encoding(x))
                implies false by {
                lemma_extension_layout(b@, s as int, e as int, x);
            }
        }
        return Err(DerError::TrailingData);
    }
    let x = Extension { extn_id: id, critical, extn_value: value };
    proof {
        assert(critical_encoding(critical) =~= b@.subrange(id_end as int, value_start as int));
        assert(seqc =~= extension_content(x@));
        assert forall|y: ExtensionView|
            valid_extension(y) && #[trigger] at(b@, pos as int, end as int, extension_encoding(y))
            implies x@ == y && e == pos + extension_encoding(y).len() by {
            lemma_extension_layout(b@, s as int, e as int, y);
        }
    }
    Ok((x, e))
}

/// `b[s..e]` is exactly the encodings of the valid extension list `sv`.
pub open spec fn list_fills(b: Seq<u8>, s: int, e: int, sv: Seq<ExtensionView>) -> bool {
    valid_extensions(sv) && b.subrange(s, e) == extensions_content(sv)
}

/// Decodes the extension list under its explicit tag at `pos`.
pub fn decode_extension_list(b: &[u8], pos: usize, end: usize) -> (r: Result<
    (Vec<Extension>, usize),
    DerError,
>)
    requires
        pos <= end <= b@.len(),
    ensures
        r matches Ok((v, next)) ==> pos < next <= end && valid_extensions(extensions_view(v@))
            && b@.subrange(pos as int, next as int) == extensions_field(extensions_view(v@)),
        forall|sv: Seq<ExtensionView>|
            valid_extensions(sv) && #[trigger] at(b@, pos as int, end as int, extensions_field(sv))
                ==> (r matches Ok((v, next)) && extensions_view(v@) == sv && next == pos
                + extensions_field(sv).len()),
{
    let (s1, e1) = read_content(b, pos, end, TAG_EXTENSIONS)?;
    let (s2, e2) = match read_content(b, s1, e1, TAG_SEQUENCE) {
        Ok(p) => p,
        Err(err) => {
            proof {
                assert forall|sv: Seq<ExtensionView>|
                    valid_extensions(sv) && #[trigger] at(b@, pos as int, end as int, extensions_field(sv))
                    implies false by {
                    let c = tlv(TAG_SEQUENCE, extensions_content(sv));
                    assert(at(b@, s1 as int, e1 as int, c));
                }
            }
            return Err(err);
        },
    };
    if e2 != e1 {
        proof {
            assert forall|sv: Seq<ExtensionView>|
                valid_extensions(sv) && #[trigger] at(b@, pos as int, end as int, extensions_field(sv))
                implies false by {
                let c = tlv(TAG_SEQUENCE, extensions_content(sv));
                assert(at(b@, s1 as int, e1 as int, c));
            }
        }
        return Err(DerError::TrailingData);
    }
    proof {
        assert forall|sv: Seq<ExtensionView>|
            valid_extensions(sv) && #[trigger] at(b@, pos as int, end as int, extensions_field(sv))
            implies list_fills(b@, s2 as int, e2 as int, sv) by {
            let c = tlv(TAG_SEQUENCE, extensions_content(sv));
            assert(at(b@, s1 as int, e1 as int, c));
            assert(at(b@, s2 as int, e2 as int, extensions_content(sv)));
        }
    }
    let mut v: Vec<Extension> = Vec::new();
    let mut p: usize = s2;
    assert(extensions_view(v@) =~= Seq::<ExtensionView>::empty());
    while p < e2
        invariant
            pos < s1 <= s2 <= p <= e2 == e1 <= end <= b@.len(),
            e2 - s2 < CONTENT_LIMIT,
            b@.subrange(s1 as int, e1 as int) == tlv(TAG_SEQUENCE, b@.subrange(s2 as int, e2 as int)),
            b@.subrange(pos as int, e1 as int) == tlv(TAG_EXTENSIONS, b@.subrange(s1 as int, e1 as int)),
            b@.subrange(s2 as int, p as int) == extensions_content(extensions_view(v@)),
            forall|i: int| 0 <= i < v@.len() ==> valid_extension(#[trigger] extensions_view(v@)[i]),
            forall|sv: Seq<ExtensionView>|
                valid_extensions(sv) && #[trigger] at(b@, pos as int, end as int, extensions_field(sv))
                    ==> list_fills(b@, s2 as int, e2 as int, sv),
            forall|sv: Seq<ExtensionView>| #[trigger]
                list_fills(b@, s2 as int, e2 as int, sv) ==> v@.len() <= sv.len()
                    && extensions_view(v@) == sv.take(v@.len() as int) && p == s2
                    + extensions_content(sv.take(v@.len() as int)).len(),
        decreases e2 - p,
    {
        let ghost k = v@.len() as int;
        proof {
            assert forall|sv: Seq<ExtensionView>| #[trigger]
                list_fills(b@, s2 as int, e2 as int, sv) implies k < sv.len() && at(
                b@,
                p as int,
                e2 as int,
                extension_encoding(sv[k]),
            ) by {
                if k == sv.len() {
                    assert(sv.take(k) =~= sv);
                }
                lemma_extensions_prefix(sv, k + 1);
                lemma_extensions_step(sv, k);
                let pre = extensions_content(sv.take(k + 1));
                assert(at(b@, s2 as int, e2 as int, pre)) by {
                    assert(b@.subrange(s2 as int, s2 + pre.len()) =~= b@.subrange(s2 as int, e2 as int).subrange(0, pre.len() as int));
                }
                lemma_at_concat(b@, s2 as int, e2 as int, extensions_content(sv.take(k)), extension_encoding(sv[k]));
            }
        }
        let (x, next) = match decode_extension(b, p, e2) {
            Ok(q) => q,
            Err(err) => {
                proof {
                    assert forall|sv: Seq<ExtensionView>|
                        valid_extensions(sv) && #[trigger] at(b@, pos as int, end as int, extensions_field(sv))
                        implies false by {
                        assert(list_fills(b@, s2 as int, e2 as int, sv));
                        assert(valid_extension(sv[k]));
                    }
                }
                return Err(err);
            },
        };
        let ghost old_view = extensions_view(v@);
        let ghost prev = p;
        v.push(x);
        p = next;
        proof {
            assert(extensions_view(v@) =~= old_view.push(x@));
            assert(extensions_view(v@).drop_last() =~= old_view);
            assert(b@.subrange(s2 as int, p as int) =~= b@.subrange(s2 as int, prev as int)
                + b@.subrange(prev as int, p as int));
            assert forall|sv: Seq<ExtensionView>| #[trigger]
                list_fills(b@, s2 as int, e2 as int, sv) implies v@.len() <= sv.len()
                    && extensions_view(v@) == sv.take(v@.len() as int) && p == s2
                    + extensions_content(sv.take(v@.len() as int)).len() by {
                assert(valid_extension(sv[k]));
                lemma_extensions_step(sv, k);
                assert(sv.take(k + 1) =~= sv.take(k).push(sv[k]));
            }
        }
    }
    let next = e1;
    proof {
        assert forall|sv: Seq<ExtensionView>|
            valid_extensions(sv) && #[trigger] at(b@, pos as int, end as int, extensions_field(sv))
            implies extensions_view(v@) == sv && next == pos + extensions_field(sv).len() by {
            assert(list_fills(b@, s2 as int, e2 as int, sv));
            let k = v@.len() as int;
            if k < sv.len() {
                lemma_extensions_prefix(sv, k + 1);
                lemma_extensions_step(sv, k);
            }
            assert(sv.take(k) =~= sv);
        }
    }
    Ok((v, next))
}

/// The first five octets of `t` are the explicitly tagged version 0, 1 or 2.
pub open spec fn version_present(t: Seq<u8>) -> bool {
    &&& t.len() >= 5
    &&& t[0] == TAG_VERSION
    &&& t[1] == 0x03
    &&& t[2] == TAG_INTEGER
    &&& t[3] == 0x01
    &&& t[4] <= 2
}

pub proof fn lemma_version_encoding(v: Version)
    ensures
        version_encoding(v) == seq![TAG_VERSION, 0x03u8, TAG_INTEGER, 0x01u8, v.number()],
{
    assert(version_encoding(v) =~= seq![TAG_VERSION, 0x03u8, TAG_INTEGER, 0x01u8, v.number()]);
}

/// `b[s..e]` is the body content of the valid `tv` cut after its first `n` fields
/// (`n == 7`: the whole content).
pub open spec fn covers(b: Seq<u8>, s: int, e: int, tv: TbsView, n: int) -> bool {
    &&& tv.valid()
    &&& 0 <= n <= 7
    &&& b.subrange(s, e) == tv.prefix(n)
}

/// Bodies that agree on the version and the first `i` fields agree on the prefix.
pub proof fn lemma_prefix_agree(t1: TbsView, t2: TbsView, i: int)
    requires
        0 <= i <= 6,
        t1.version == t2.version,
        forall|j: int| 0 <= j < i ==> t1.part(j) == t2.part(j),
    ensures
        t1.prefix(i) == t2.prefix(i),
    decreases i,
{
    if i > 0 {
        lemma_prefix_agree(t1, t2, i - 1);
        assert(t1.part(i - 1) == t2.part(i - 1));
    }
}

/// A longer prefix begins with every shorter one and is strictly longer.
pub proof fn lemma_prefix_grow(tv: TbsView, i: int, n: int)
    requires
        0 <= i < n <= 7,
    ensures
        tv.prefix(n).len() > tv.prefix(i).len(),
        tv.prefix(i + 1).len() <= tv.prefix(n).len(),
        tv.prefix(n).subrange(0, tv.prefix(i + 1).len() as int) == tv.prefix(i + 1),
    decreases n,
{
    if n == i + 1 {
        assert(tv.prefix(n).subrange(0, tv.prefix(n).len() as int) =~= tv.prefix(n));
    } else {
        lemma_prefix_grow(tv, i, n - 1);
        let a = tv.prefix(n - 1);
        assert((a + tv.field(n - 1)).subrange(0, tv.prefix(i + 1).len() as int) =~= a.subrange(
            0,
            tv.prefix(i + 1).len() as int,
        ));
    }
}

/// Where the field `i` of a covered body stands.
pub proof fn lemma_covers_at(b: Seq<u8>, s: int, e: int, tv: TbsView, i: int, n: int)
    requires
        0 <= s <= e <= b.len(),
        covers(b, s, e, tv, n),
        0 <= i < n,
    ensures
        at(b, s, e, tv.prefix(i)),
        at(b, s + tv.prefix(i).len(), e, tv.field(i)),
        tv.prefix(n).len() > tv.prefix(i).len(),
{
    lemma_prefix_grow(tv, i, n);
    let p = tv.prefix(i + 1);
    assert(at(b, s, e, p)) by {
        assert(b.subrange(s, s + p.len()) =~= b.subrange(s, e).subrange(0, p.len() as int));
    }
    lemma_at_concat(b, s, e, tv.prefix(i), tv.field(i));
}

/// The body with the given version and fields, and no extensions.
pub open spec fn draft(version: Version, p: Seq<Seq<u8>>) -> TbsView {
    TbsView {
        version,
        serial_number: p[0],
        signature: p[1],
        issuer: p[2],
        validity: p[3],
        subject: p[4],
        subject_public_key_info: p[5],
        extensions: Seq::empty(),
    }
}

/// Decodes the content `b[s..e]` of the certificate body, guarding the version field.
pub fn decode_tbs(b: &[u8], s: usize, e: usize, element: &str) -> (r: Result<TBSCertificate, CertError>)
    requires
        s <= e <= b@.len(),
        e - s < CONTENT_LIMIT,
    ensures
        r matches Ok(t) ==> t@.valid() && b@.subrange(s as int, e as int) == t@.content(),
        forall|tv: TbsView, n: int| #[trigger]
            covers(b@, s as int, e as int, tv, n) ==> if n == 7 {
                r matches Ok(t) && t@ == tv
            } else {
                r == Err::<TBSCertificate, CertError>(CertError::FieldMissing { index: n as usize })
            },
        (r == Err::<TBSCertificate, CertError>(CertError::VersionTagMissing)) <==> !version_present(
            b@.subrange(s as int, e as int),
        ),
        r matches Err(CertError::Asn1Deserialization { element: el, .. }) ==> el@ == element@,
        r matches Err(CertError::FieldMissing { index }) ==> index < 7,
        !(r matches Err(CertError::Asn1Serialization { .. })),
        !(r matches Err(CertError::InvalidPemLabel { .. })),
        !(r matches Err(CertError::ContainerFormat)),
{
    proof {
        assert forall|tv: TbsView, n: int| #[trigger] covers(b@, s as int, e as int, tv, n) implies version_present(
            b@.subrange(s as int, e as int),
        ) by {
            lemma_version_encoding(tv.version);
            if n > 0 {
                lemma_covers_at(b@, s as int, e as int, tv, 0, n);
            } else {
                assert(tv.prefix(0) == version_encoding(tv.version));
            }
            assert(b@.subrange(s as int, e as int)[0] == b@[s as int]);
            assert(b@.subrange(s as int, e as int)[4] == b@[s + 4]);
            assert(b@.subrange(s as int, s + 5) == tv.prefix(0));
        }
    }
    if e - s < 5 || b[s] != TAG_VERSION || b[s + 1] != 0x03 || b[s + 2] != TAG_INTEGER || b[s + 3] != 0x01 || b[s + 4] > 2 {
        return Err(CertError::VersionTagMissing);
    }
    assert(version_present(b@.subrange(s as int, e as int)));
    let version = match Version::from_u8(b[s + 4]) {
        Some(v) => v,
        None => {
            return Err(CertError::VersionTagMissing);
        },
    };
    let mut parts: Vec<Vec<u8>> = Vec::new();
    let mut pos: usize = s + 5;
    let mut i: usize = 0;
    proof {
        lemma_version_encoding(version);
        assert(b@.subrange(s as int, pos as int) =~= version_encoding(version));
        assert forall|tv: TbsView, n: int| #[trigger] covers(b@, s as int, e as int, tv, n) implies tv.version == version by {
            lemma_version_encoding(tv.version);
            if n > 0 {
                lemma_covers_at(b@, s as int, e as int, tv, 0, n);
            }
            assert(b@.subrange(s as int, e as int)[4] == b@[s + 4]);
            assert(b@.subrange(s as int, s + 5) == tv.prefix(0));
        }
    }
    while i < 6
        invariant
            s + 5 <= pos <= e <= b@.len(),
            e - s < CONTENT_LIMIT,
            i <= 6,
            parts@.len() == i,
            version_present(b@.subrange(s as int, e as int)),
            forall|j: int| 0 <= j < i ==> (#[trigger] parts@[j])@.len() < CONTENT_LIMIT,
            i > 0 ==> valid_serial(parts@[0]@),
            b@.subrange(s as int, pos as int) == draft(
                version,
                parts@.map_values(|v: Vec<u8>| v@) + Seq::new((6 - i) as nat, |k: int| Seq::<u8>::empty()),
            ).prefix(i as int),
            forall|tv: TbsView, n: int| #[trigger]
                covers(b@, s as int, e as int, tv, n) ==> i <= n && tv.version == version
                    && pos == s + tv.prefix(i as int).len()
                    && forall|j: int| 0 <= j < i ==> tv.part(j) == (#[trigger] parts@[j])@,
        decreases 6 - i,
    {
        let ghost pm = parts@.map_values(|v: Vec<u8>| v@) + Seq::new((6 - i) as nat, |k: int| Seq::<u8>::empty());
        if pos == e {
            proof {
                assert forall|tv: TbsView, n: int| #[trigger] covers(b@, s as int, e as int, tv, n) implies n == i by {
                    if n > i {
                        lemma_covers_at(b@, s as int, e as int, tv, i as int, n);
                    }
                }
            }
            return Err(CertError::FieldMissing { index: i });
        }
        let tag = if i == 0 { TAG_INTEGER } else { TAG_SEQUENCE };
        proof {
            assert forall|tv: TbsView, n: int| #[trigger] covers(b@, s as int, e as int, tv, n) implies i < n
                && at(b@, pos as int, e as int, tlv(tag, tv.part(i as int))) && tv.part(i as int).len() < CONTENT_LIMIT by {
                if n == i {
                    assert(b@.subrange(s as int, e as int).len() == tv.prefix(n).len());
                }
                lemma_covers_at(b@, s as int, e as int, tv, i as int, n);
                assert(tv.part(i as int).len() < CONTENT_LIMIT);
            }
        }
        let (v, next) = match read_value(b, pos, e, tag) {
            Ok(q) => q,
            Err(source) => {
                proof {
                    assert forall|tv: TbsView, n: int| #[trigger] covers(b@, s as int, e as int, tv, n) implies false by {
                        assert(at(b@, pos as int, e as int, tlv(tag, tv.part(i as int))));
                    }
                }
                return Err(CertError::Asn1Deserialization { source, element: element.to_owned() });
            },
        };
        if i == 0 && !is_minimal_integer(&v) {
            proof {
                assert forall|tv: TbsView, n: int| #[trigger] covers(b@, s as int, e as int, tv, n) implies false by {
                    assert(at(b@, pos as int, e as int, tlv(tag, tv.part(i as int))));
                }
            }
            return Err(CertError::Asn1Deserialization { source: DerError::InvalidValue, element: element.to_owned() });
        }
        let ghost prev = pos;
        let ghost old_parts = parts@;
        parts.push(v);
        pos = next;
        i += 1;
        proof {
            let pm1 = parts@.map_values(|v: Vec<u8>| v@) + Seq::new((6 - i) as nat, |k: int| Seq::<u8>::empty());
            let d0 = draft(version, pm);
            let d1 = draft(version, pm1);
            assert forall|j: int| 0 <= j < i - 1 implies d0.part(j) == d1.part(j) by {
                assert(pm[j] == pm1[j]);
            }
            lemma_prefix_agree(d0, d1, i - 1);
            assert(pm1[i - 1] == v@);
            assert(d1.part(i - 1) == v@);
            assert(b@.subrange(s as int, pos as int) =~= b@.subrange(s as int, prev as int)
                + b@.subrange(prev as int, pos as int));
            assert(d1.prefix(i as int) == d1.prefix(i - 1) + d1.field(i - 1));
            assert forall|tv: TbsView, n: int| #[trigger] covers(b@, s as int, e as int, tv, n) implies i <= n && tv.version == version
                && pos == s + tv.prefix(i as int).len()
                && forall|j: int| 0 <= j < i ==> tv.part(j) == (#[trigger] parts@[j])@ by {
                assert(at(b@, prev as int, e as int, tlv(tag, tv.part(i - 1))));
                assert(forall|j: int| 0 <= j < i - 1 ==> parts@[j] == old_parts[j]);
            }
        }
    }
    if pos == e {
        proof {
            assert forall|tv: TbsView, n: int| #[trigger] covers(b@, s as int, e as int, tv, n) implies n == 6 by {
                if n > 6 {
                    lemma_covers_at(b@, s as int, e as int, tv, 6, n);
                }
            }
        }
        return Err(CertError::FieldMissing { index: 6 });
    }
    let (extensions, next) = match decode_extension_list(b, pos, e) {
        Ok(q) => q,
        Err(source) => {
            proof {
                assert forall|tv: TbsView, n: int| #[trigger] covers(b@, s as int, e as int, tv, n) implies false by {
                    if n == 6 {
                        assert(b@.subrange(s as int, e as int).len() == tv.prefix(n).len());
                    }
                    lemma_covers_at(b@, s as int, e as int, tv, 6, n);
                }
            }
            return Err(CertError::Asn1Deserialization { source, element: element.to_owned() });
        },
    };
    if next != e {
        proof {
            assert forall|tv: TbsView, n: int| #[trigger] covers(b@, s as int, e as int, tv, n) implies false by {
                if n == 6 {
                    assert(b@.subrange(s as int, e as int).len() == tv.prefix(n).len());
                }
                lemma_covers_at(b@, s as int, e as int, tv, 6, n);
            }
        }
        return Err(CertError::Asn1Deserialization { source: DerError::TrailingData, element: element.to_owned() });
    }
    let ghost pm = parts@.map_values(|v: Vec<u8>| v@) + Seq::new(0, |k: int| Seq::<u8>::empty());
    let spki = parts.pop().unwrap();
    let subject = parts.pop().unwrap();
    let validity = parts.pop().unwrap();
    let issuer = parts.pop().unwrap();
    let signature = parts.pop().unwrap();
    let serial_number = parts.pop().unwrap();
    let t = TBSCertificate {
        version,
        serial_number,
        signature,
        issuer,
        validity,
        subject,
        subject_public_key_info: spki,
        extensions,
    };
    proof {
        let d = draft(version, pm);
        assert forall|j: int| 0 <= j < 6 implies d.part(j) == t@.part(j) by {}
        lemma_prefix_agree(d, t@, 6);
        assert(b@.subrange(s as int, e as int) =~= b@.subrange(s as int, pos as int)
            + b@.subrange(pos as int, e as int));
        assert(t@.prefix(7) == t@.prefix(6) + t@.field(6));
        assert forall|j: int| 0 <= j < 6 implies #[trigger] t@.part(j).len() < CONTENT_LIMIT by {}
        assert forall|tv: TbsView, n: int| #[trigger] covers(b@, s as int, e as int, tv, n) implies n == 7 && t@ == tv by {
            if n == 6 {
                assert(b@.subrange(s as int, e as int).len() == tv.prefix(n).len());
            }
            lemma_covers_at(b@, s as int, e as int, tv, 6, n);
            assert(tv.part(0) == t@.part(0));
            assert(tv.part(1) == t@.part(1));
            assert(tv.part(2) == t@.part(2));
            assert(tv.part(3) == t@.part(3));
            assert(tv.part(4) == t@.part(4));
            assert(tv.part(5) == t@.part(5));
        }
    }
    Ok(t)
}

/// `b` is a certificate SEQUENCE whose first element is a body SEQUENCE with content `t`,
/// followed by `rest`.
pub open spec fn framed(b: Seq<u8>, t: Seq<u8>, rest: Seq<u8>) -> bool {
    &&& t.len() < CONTENT_LIMIT
    &&& (tlv(TAG_SEQUENCE, t) + rest).len() < CONTENT_LIMIT
    &&& b == tlv(TAG_SEQUENCE, tlv(TAG_SEQUENCE, t) + rest)
}

/// Where the outer signature algorithm and the signature stand in the certificate content.
proof fn lemma_certificate_layout(b: Seq<u8>, s0: int, e0: int, m: CertificateView)
    requires
        0 <= s0 <= e0 <= b.len(),
        b.subrange(s0, e0) == m.content(),
    ensures
        ({
            let after_one = s0 + tlv(TAG_SEQUENCE, m.tbs.content()).len();
            let a = tlv(TAG_SEQUENCE, m.signature_algorithm);
            let z = tlv(TAG_BIT_STRING, bit_string_content(m.unused_bits, m.signature_value));
            &&& at(b, after_one, e0, a)
            &&& at(b, after_one + a.len(), e0, z)
            &&& after_one + a.len() + z.len() == e0
        }),
{
    let t = tlv(TAG_SEQUENCE, m.tbs.content());
    let a = tlv(TAG_SEQUENCE, m.signature_algorithm);
    let z = tlv(TAG_BIT_STRING, bit_string_content(m.unused_bits, m.signature_value));
    assert(at(b, s0, e0, t + a + z)) by {
        assert(b.subrange(s0, s0 + (t + a + z).len()) =~= b.subrange(s0, e0));
    }
    lemma_at_concat(b, s0, e0, t + a, z);
    lemma_at_concat(b, s0, e0, t, a);
}

#[verifier::rlimit(40)]
/// Decodes a DER certificate. Succeeds exactly on the encodings of valid certificates; a
/// body without the explicit version tag gives `VersionTagMissing`, a body cut after its
/// first `n` fields gives `FieldMissing { index: n }`.
pub fn decode_der(b: &[u8], element: &str) -> (r: Result<Certificate, CertError>)
    ensures
        r matches Ok(c) ==> c@.valid() && der_encoding(c@) == b@,
        forall|m: CertificateView|
            m.valid() && #[trigger] der_encoding(m) == b@ ==> (r matches Ok(c) && c@ == m),
        forall|t: Seq<u8>, rest: Seq<u8>|
            #[trigger] framed(b@, t, rest) && !version_present(t) ==> r == Err::<Certificate, CertError>(
                CertError::VersionTagMissing,
            ),
        r == Err::<Certificate, CertError>(CertError::VersionTagMissing) ==> exists|
            t: Seq<u8>,
            rest: Seq<u8>,
        | #[trigger] framed(b@, t, rest) && !version_present(t),
        forall|tv: TbsView, n: int, rest: Seq<u8>|
            0 <= n < 7 && tv.valid() && #[trigger] framed(b@, tv.prefix(n), rest) ==> r == Err::<
                Certificate,
                CertError,
            >(CertError::FieldMissing { index: n as usize }),
        r matches Err(CertError::FieldMissing { index }) ==> index < 7,
        r matches Err(CertError::Asn1Deserialization { element: el, .. }) ==> el@ == element@,
        !(r matches Err(CertError::Asn1Serialization { .. })),
        !(r matches Err(CertError::InvalidPemLabel { .. })),
        !(r matches Err(CertError::ContainerFormat)),
{
    let len = b.len();
    proof {
        assert(b@.subrange(0, len as int) =~= b@);
        assert forall|m: CertificateView| m.valid() && #[trigger] der_encoding(m) == b@ implies at(
            b@,
            0,
            len as int,
            tlv(TAG_SEQUENCE, m.content()),
        ) by {}
        assert forall|t: Seq<u8>, rest: Seq<u8>| #[trigger] framed(b@, t, rest) implies at(
            b@,
            0,
            len as int,
            tlv(TAG_SEQUENCE, tlv(TAG_SEQUENCE, t) + rest),
        ) by {}
    }
    let (s0, e0) = match read_content(b, 0, len, TAG_SEQUENCE) {
        Ok(q) => q,
        Err(source) => {
            return Err(CertError::Asn1Deserialization { source, element: element.to_owned() });
        },
    };
    if e0 != len {
        return Err(CertError::Asn1Deserialization { source: DerError::TrailingData, element: element.to_owned() });
    }
    proof {
        assert forall|m: CertificateView| m.valid() && #[trigger] der_encoding(m) == b@ implies at(
            b@,
            s0 as int,
            e0 as int,
            tlv(TAG_SEQUENCE, m.tbs.content()),
        ) && b@.subrange(s0 as int, e0 as int) == m.content() by {
            let a = tlv(TAG_SEQUENCE, m.tbs.content());
            let rest = tlv(TAG_SEQUENCE, m.signature_algorithm) + tlv(TAG_BIT_STRING, bit_string_content(m.unused_bits, m.signature_value));
            assert(m.content() =~= a + rest);
            assert(at(b@, s0 as int, e0 as int, a + rest)) by {
                assert(b@.subrange(s0 as int, s0 + (a + rest).len()) =~= b@.subrange(s0 as int, e0 as int));
            }
            lemma_at_concat(b@, s0 as int, e0 as int, a, rest);
        }
        assert forall|t: Seq<u8>, rest: Seq<u8>| #[trigger] framed(b@, t, rest) implies at(
            b@,
            s0 as int,
            e0 as int,
            tlv(TAG_SEQUENCE, t),
        ) && b@.subrange(s0 as int, e0 as int) == tlv(TAG_SEQUENCE, t) + rest by {
            let a = tlv(TAG_SEQUENCE, t);
            assert(at(b@, s0 as int, e0 as int, a + rest)) by {
                assert(b@.subrange(s0 as int, s0 + (a + rest).len()) =~= b@.subrange(s0 as int, e0 as int));
            }
            lemma_at_concat(b@, s0 as int, e0 as int, a, rest);
        }
    }
    let (s1, e1) = match read_content(b, s0, e0, TAG_SEQUENCE) {
        Ok(q) => q,
        Err(source) => {
            return Err(CertError::Asn1Deserialization { source, element: element.to_owned() });
        },
    };
    proof {
        assert forall|m: CertificateView| m.valid() && #[trigger] der_encoding(m) == b@ implies covers(
            b@,
            s1 as int,
            e1 as int,
            m.tbs,
            7,
        ) by {}
        assert forall|tv: TbsView, n: int, rest: Seq<u8>|
            0 <= n < 7 && tv.valid() && #[trigger] framed(b@, tv.prefix(n), rest) implies covers(
            b@,
            s1 as int,
            e1 as int,
            tv,
            n,
        ) by {
            assert(framed(b@, tv.prefix(n), rest));
        }
        assert(framed(b@, b@.subrange(s1 as int, e1 as int), b@.subrange(e1 as int, e0 as int))) by {
            assert(b@.subrange(s0 as int, e0 as int) =~= b@.subrange(s0 as int, e1 as int) + b@.subrange(e1 as int, e0 as int));
            assert(b@.subrange(0, len as int) =~= b@);
        }
        assert forall|t: Seq<u8>, rest: Seq<u8>| #[trigger] framed(b@, t, rest) implies t == b@.subrange(s1 as int, e1 as int) by {
            assert(at(b@, s0 as int, e0 as int, tlv(TAG_SEQUENCE, t)));
        }
    }
    let tbs_certificate = decode_tbs(b, s1, e1, element)?;
    proof {
        assert forall|m: CertificateView| m.valid() && #[trigger] der_encoding(m) == b@ implies ({
            let a = tlv(TAG_SEQUENCE, m.signature_algorithm);
            let z = tlv(TAG_BIT_STRING, bit_string_content(m.unused_bits, m.signature_value));
            &&& tbs_certificate@ == m.tbs
            &&& at(b@, e1 as int, e0 as int, a)
            &&& at(b@, e1 + a.len(), e0 as int, z)
            &&& e1 + a.len() + z.len() == e0
        }) by {
            assert(covers(b@, s1 as int, e1 as int, m.tbs, 7));
            lemma_certificate_layout(b@, s0 as int, e0 as int, m);
        }
    }
    let (signature_algorithm, alg_end) = match read_value(b, e1, e0, TAG_SEQUENCE) {
        Ok(q) => q,
        Err(source) => {
            return Err(CertError::Asn1Deserialization { source, element: element.to_owned() });
        },
    };
    let (cs, bits_end) = match read_content(b, alg_end, e0, TAG_BIT_STRING) {
        Ok(q) => q,
        Err(source) => {
            return Err(CertError::Asn1Deserialization { source, element: element.to_owned() });
        },
    };
    if bits_end != e0 {
        return Err(CertError::Asn1Deserialization { source: DerError::TrailingData, element: element.to_owned() });
    }
    if cs == bits_end || b[cs] > 7 || (bits_end - cs == 1 && b[cs] != 0) {
        proof {
            assert forall|m: CertificateView| m.valid() && #[trigger] der_encoding(m) == b@ implies false by {
                let z = bit_string_content(m.unused_bits, m.signature_value);
                assert(b@.subrange(cs as int, bits_end as int) == z);
                assert(b@[cs as int] == z[0]);
            }
        }
        return Err(CertError::Asn1Deserialization { source: DerError::InvalidValue, element: element.to_owned() });
    }
    let unused_bits = b[cs];
    let signature_value = copy_range(b, cs + 1, bits_end);
    let c = Certificate { tbs_certificate, signature_algorithm, unused_bits, signature_value };
    proof {
        assert(b@.subrange(cs as int, bits_end as int) =~= bit_string_content(unused_bits, signature_value@));
        assert(b@.subrange(s0 as int, e0 as int) =~= b@.subrange(s0 as int, e1 as int)
            + b@.subrange(e1 as int, alg_end as int) + b@.subrange(alg_end as int, bits_end as int));
        assert(b@.subrange(s0 as int, e0 as int) == c@.content());
        assert(b@ =~= b@.subrange(0, len as int));
        assert forall|m: CertificateView| m.valid() && #[trigger] der_encoding(m) == b@ implies c@ == m by {
            let z = bit_string_content(m.unused_bits, m.signature_value);
            assert(b@.subrange(cs as int, bits_end as int) == z);
            assert(z[0] == m.unused_bits);
            assert(m.signature_value =~= z.subrange(1, z.len() as int));
            assert(signature_value@ =~= b@.subrange(cs as int, bits_end as int).subrange(1, z.len() as int));
        }
    }
    Ok(c)
}

} // verus!
