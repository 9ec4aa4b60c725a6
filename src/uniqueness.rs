//! The DER encoding determines the value it encodes.
use vstd::prelude::*;
use crate::decode::lemma_version_encoding;
use crate::der::{tlv, length_octets, lemma_parse_tlv, CONTENT_LIMIT};
use crate::certificate::{
    CertificateView, ExtensionView, TbsView, Version, bit_string_content, critical_encoding,
    der_encoding, extension_content, extension_encoding, extensions_content, extensions_field,
    field_tag, valid_extension, valid_extensions, version_encoding, TAG_BIT_STRING,
    TAG_EXTENSIONS, TAG_INTEGER, TAG_OCTET_STRING, TAG_OID, TAG_SEQUENCE,
};

verus! {

/// Two elements followed by anything are equal only if tags, contents and what follows are.
pub proof fn lemma_tlv_split(t1: u8, c1: Seq<u8>, r1: Seq<u8>, t2: u8, c2: Seq<u8>, r2: Seq<u8>)
    requires
        c1.len() < CONTENT_LIMIT,
        c2.len() < CONTENT_LIMIT,
        tlv(t1, c1) + r1 == tlv(t2, c2) + r2,
    ensures
        t1 == t2,
        c1 == c2,
        r1 == r2,
{
    lemma_parse_tlv(t1, c1, r1);
    lemma_parse_tlv(t2, c2, r2);
    let s = tlv(t1, c1) + r1;
    let n = tlv(t1, c1).len() as int;
    assert(r1 =~= s.subrange(n, s.len() as int));
    assert(r2 =~= s.subrange(n, s.len() as int));
}

/// An extension's encoding, followed by anything, determines the extension.
pub proof fn lemma_extension_split(e1: ExtensionView, r1: Seq<u8>, e2: ExtensionView, r2: Seq<u8>)
    requires
        valid_extension(e1),
        valid_extension(e2),
        extension_encoding(e1) + r1 == extension_encoding(e2) + r2,
    ensures
        e1 == e2,
        r1 == r2,
{
    lemma_tlv_split(TAG_SEQUENCE, extension_content(e1), r1, TAG_SEQUENCE, extension_content(e2), r2);
    let a1 = critical_encoding(e1.critical) + tlv(TAG_OCTET_STRING, e1.value);
    let a2 = critical_encoding(e2.critical) + tlv(TAG_OCTET_STRING, e2.value);
    assert(extension_content(e1) =~= tlv(TAG_OID, e1.id) + a1);
    assert(extension_content(e2) =~= tlv(TAG_OID, e2.id) + a2);
    lemma_tlv_split(TAG_OID, e1.id, a1, TAG_OID, e2.id, a2);
    assert(a1[0] == a2[0]);
    if e1.critical {
        assert(e2.critical);
    }
    if e2.critical {
        assert(e1.critical);
    }
    assert(critical_encoding(e1.critical) == critical_encoding(e2.critical));
    assert(tlv(TAG_OCTET_STRING, e1.value) =~= a1.subrange(critical_encoding(e1.critical).len() as int, a1.len() as int));
    assert(tlv(TAG_OCTET_STRING, e2.value) =~= a2.subrange(critical_encoding(e1.critical).len() as int, a2.len() as int));
    lemma_tlv_split(TAG_OCTET_STRING, e1.value, seq![], TAG_OCTET_STRING, e2.value, seq![]);
}

/// The encoding of a list is its first extension's followed by the rest's.
pub proof fn lemma_extensions_front(s: Seq<ExtensionView>)
    requires
        s.len() > 0,
    ensures
        extensions_content(s) == extension_encoding(s[0]) + extensions_content(s.drop_first()),
    decreases s.len(),
{
    if s.len() == 1 {
        assert(s.drop_last() =~= Seq::<ExtensionView>::empty());
        assert(s.drop_first() =~= Seq::<ExtensionView>::empty());
        assert(extensions_content(s) =~= extension_encoding(s[0]) + extensions_content(s.drop_first()));
    } else {
        lemma_extensions_front(s.drop_last());
        assert(s.drop_last().drop_first() =~= s.drop_first().drop_last());
        assert(s.drop_first().last() == s.last());
        assert(extensions_content(s) =~= extension_encoding(s[0]) + extensions_content(s.drop_first()));
    }
}

/// Distinct lists of valid extensions have distinct encodings.
pub proof fn lemma_extensions_injective(s1: Seq<ExtensionView>, s2: Seq<ExtensionView>)
    requires
        forall|i: int| 0 <= i < s1.len() ==> valid_extension(#[trigger] s1[i]),
        forall|i: int| 0 <= i < s2.len() ==> valid_extension(#[trigger] s2[i]),
        extensions_content(s1) == extensions_content(s2),
    ensures
        s1 == s2,
    decreases s1.len(),
{
    if s1.len() == 0 {
        if s2.len() > 0 {
            lemma_extensions_front(s2);
            assert(extensions_content(s1).len() == 0);
            assert(extension_encoding(s2[0]).len() > 0);
            assert(extensions_content(s2).len() > 0);
            assert(false);
        }
        assert(s1 =~= s2);
    } else {
        lemma_extensions_front(s1);
        if s2.len() == 0 {
            assert(false);
        }
        lemma_extensions_front(s2);
        assert(valid_extension(s1[0]));
        assert(valid_extension(s2[0]));
        lemma_extension_split(s1[0], extensions_content(s1.drop_first()), s2[0], extensions_content(s2.drop_first()));
        assert forall|i: int| 0 <= i < s1.drop_first().len() implies valid_extension(#[trigger] s1.drop_first()[i]) by {
            assert(valid_extension(s1[i + 1]));
        }
        assert forall|i: int| 0 <= i < s2.drop_first().len() implies valid_extension(#[trigger] s2.drop_first()[i]) by {
            assert(valid_extension(s2[i + 1]));
        }
        lemma_extensions_injective(s1.drop_first(), s2.drop_first());
        assert(s1 =~= seq![s1[0]] + s1.drop_first());
        assert(s2 =~= seq![s2[0]] + s2.drop_first());
    }
}

/// Order matters: two different lists of valid extensions, for instance the same
/// extensions in another order, never have the same encoded extension field.
pub proof fn lemma_extension_order_matters(s1: Seq<ExtensionView>, s2: Seq<ExtensionView>)
    requires
        valid_extensions(s1),
        valid_extensions(s2),
        s1 != s2,
    ensures
        extensions_field(s1) != extensions_field(s2),
{
    if extensions_field(s1) == extensions_field(s2) {
        let l1 = tlv(TAG_SEQUENCE, extensions_content(s1));
        let l2 = tlv(TAG_SEQUENCE, extensions_content(s2));
        assert(tlv(TAG_EXTENSIONS, l1) + seq![] =~= tlv(TAG_EXTENSIONS, l2) + seq![]);
        lemma_tlv_split(TAG_EXTENSIONS, l1, seq![], TAG_EXTENSIONS, l2, seq![]);
        assert(l1 + seq![] =~= l2 + seq![]);
        lemma_tlv_split(TAG_SEQUENCE, extensions_content(s1), seq![], TAG_SEQUENCE, extensions_content(s2), seq![]);
        lemma_extensions_injective(s1, s2);
    }
}

/// The body content, written front to back.
pub proof fn lemma_content_front(tv: TbsView)
    ensures
        tv.content() == version_encoding(tv.version) + (tv.field(0) + (tv.field(1) + (tv.field(2)
            + (tv.field(3) + (tv.field(4) + (tv.field(5) + tv.field(6))))))),
{
    assert(tv.prefix(1) == tv.prefix(0) + tv.field(0));
    assert(tv.prefix(2) == tv.prefix(1) + tv.field(1));
    assert(tv.prefix(3) == tv.prefix(2) + tv.field(2));
    assert(tv.prefix(4) == tv.prefix(3) + tv.field(3));
    assert(tv.prefix(5) == tv.prefix(4) + tv.field(4));
    assert(tv.prefix(6) == tv.prefix(5) + tv.field(5));
    assert(tv.prefix(7) == tv.prefix(6) + tv.field(6));
    assert(tv.content() =~= version_encoding(tv.version) + (tv.field(0) + (tv.field(1) + (tv.field(2)
        + (tv.field(3) + (tv.field(4) + (tv.field(5) + tv.field(6))))))));
}

/// Field `i` below 6, followed by anything, determines the field.
proof fn lemma_field_split(t1: TbsView, r1: Seq<u8>, t2: TbsView, r2: Seq<u8>, i: int)
    requires
        0 <= i < 6,
        t1.valid(),
        t2.valid(),
        t1.field(i) + r1 == t2.field(i) + r2,
    ensures
        t1.part(i) == t2.part(i),
        r1 == r2,
{
    assert(t1.part(i).len() < CONTENT_LIMIT);
    assert(t2.part(i).len() < CONTENT_LIMIT);
    lemma_tlv_split(field_tag(i), t1.part(i), r1, field_tag(i), t2.part(i), r2);
}

/// Valid bodies with the same content are equal.
pub proof fn lemma_tbs_injective(t1: TbsView, t2: TbsView)
    requires
        t1.valid(),
        t2.valid(),
        t1.content() == t2.content(),
    ensures
        t1 == t2,
{
    lemma_content_front(t1);
    lemma_content_front(t2);
    lemma_version_encoding(t1.version);
    lemma_version_encoding(t2.version);
    let c = t1.content();
    assert(c[4] == t1.version.number());
    assert(c[4] == t2.version.number());
    assert(t1.version == t2.version);
    let r5 = t1.field(5) + t1.field(6);
    let r4 = t1.field(4) + r5;
    let r3 = t1.field(3) + r4;
    let r2 = t1.field(2) + r3;
    let r1 = t1.field(1) + r2;
    let q5 = t2.field(5) + t2.field(6);
    let q4 = t2.field(4) + q5;
    let q3 = t2.field(3) + q4;
    let q2 = t2.field(2) + q3;
    let q1 = t2.field(1) + q2;
    assert(t1.field(0) + r1 =~= c.subrange(5, c.len() as int));
    assert(t2.field(0) + q1 =~= c.subrange(5, c.len() as int));
    lemma_field_split(t1, r1, t2, q1, 0);
    lemma_field_split(t1, r2, t2, q2, 1);
    lemma_field_split(t1, r3, t2, q3, 2);
    lemma_field_split(t1, r4, t2, q4, 3);
    lemma_field_split(t1, r5, t2, q5, 4);
    lemma_field_split(t1, t1.field(6), t2, t2.field(6), 5);
    if t1.extensions != t2.extensions {
        lemma_extension_order_matters(t1.extensions, t2.extensions);
    }
    assert(t1.part(0) == t2.part(0));
    assert(t1.part(1) == t2.part(1));
    assert(t1.part(2) == t2.part(2));
    assert(t1.part(3) == t2.part(3));
    assert(t1.part(4) == t2.part(4));
    assert(t1.part(5) == t2.part(5));
}

/// Round trip: a valid certificate is the only valid certificate with its DER encoding.
/// Since `decode_der` returns a valid certificate whose encoding is its input, decoding
/// what `encode_der` produced for `v` gives `v` back.
pub proof fn lemma_der_round_trip(v: CertificateView)
    requires
        v.valid(),
    ensures
        forall|m: CertificateView| m.valid() && #[trigger] der_encoding(m) == der_encoding(v) ==> m == v,
{
    assert forall|m: CertificateView| m.valid() && #[trigger] der_encoding(m) == der_encoding(v) implies m == v by {
        assert(der_encoding(m) + seq![] =~= der_encoding(v) + seq![]);
        lemma_tlv_split(TAG_SEQUENCE, m.content(), seq![], TAG_SEQUENCE, v.content(), seq![]);
        let zm = tlv(TAG_BIT_STRING, bit_string_content(m.unused_bits, m.signature_value));
        let zv = tlv(TAG_BIT_STRING, bit_string_content(v.unused_bits, v.signature_value));
        let am = tlv(TAG_SEQUENCE, m.signature_algorithm) + zm;
        let av = tlv(TAG_SEQUENCE, v.signature_algorithm) + zv;
        assert(m.content() =~= tlv(TAG_SEQUENCE, m.tbs.content()) + am);
        assert(v.content() =~= tlv(TAG_SEQUENCE, v.tbs.content()) + av);
        lemma_tlv_split(TAG_SEQUENCE, m.tbs.content(), am, TAG_SEQUENCE, v.tbs.content(), av);
        lemma_tlv_split(TAG_SEQUENCE, m.signature_algorithm, zm, TAG_SEQUENCE, v.signature_algorithm, zv);
        let bm = bit_string_content(m.unused_bits, m.signature_value);
        let bv = bit_string_content(v.unused_bits, v.signature_value);
        assert(zm + seq![] =~= zv + seq![]);
        lemma_tlv_split(TAG_BIT_STRING, bm, seq![], TAG_BIT_STRING, bv, seq![]);
        assert(bm[0] == bv[0]);
        assert(m.signature_value =~= bm.drop_first());
        assert(v.signature_value =~= bv.drop_first());
        lemma_tbs_injective(m.tbs, v.tbs);
    }
}

} // verus!
