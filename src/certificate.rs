//! The certificate model, its DER encoding and the encoder.
use vstd::prelude::*;
use crate::der::{
    tlv, push_element, push_header, push_all, CONTENT_LIMIT, DerError,
};
use crate::error::CertError;

verus! {

/// Tag of a DER INTEGER.
pub const TAG_INTEGER: u8 = 0x02;
/// Tag of a DER BIT STRING.
pub const TAG_BIT_STRING: u8 = 0x03;
/// Tag of a DER OCTET STRING.
pub const TAG_OCTET_STRING: u8 = 0x04;
/// Tag of a DER OBJECT IDENTIFIER.
pub const TAG_OID: u8 = 0x06;
/// Tag of a DER BOOLEAN.
pub const TAG_BOOLEAN: u8 = 0x01;
/// Tag of a constructed DER SEQUENCE.
pub const TAG_SEQUENCE: u8 = 0x30;
/// Explicit context tag 0, wrapping the version.
pub const TAG_VERSION: u8 = 0xA0;
/// Explicit context tag 3, wrapping the extension list.
pub const TAG_EXTENSIONS: u8 = 0xA3;

/// Certificate format version.
#[derive(Debug, Clone, Copy, PartialEq, Eq, Structural)]
pub enum Version {
    V1,
    V2,
    V3,
}

impl Version {
    /// The integer that stands for the version on the wire.
    pub open spec fn number(self) -> u8 {
        match self {
            Version::V1 => 0,
            Version::V2 => 1,
            Version::V3 => 2,
        }
    }

    pub fn to_u8(self) -> (r: u8)
        ensures
            r == self.number(),
    {
        match self {
            Version::V1 => 0,
            Version::V2 => 1,
            Version::V3 => 2,
        }
    }

    pub fn from_u8(n: u8) -> (r: Option<Version>)
        ensures
            match r {
                Some(v) => v.number() == n,
                None => n > 2,
            },
    {
        if n == 0 {
            Some(Version::V1)
        } else if n == 1 {
            Some(Version::V2)
        } else if n == 2 {
            Some(Version::V3)
        } else {
            None
        }
    }
}

/// One certificate extension: its object identifier (content octets), whether it is
/// critical, and its opaque value (content octets of the OCTET STRING).
#[derive(Debug, Clone, PartialEq, Eq)]
pub struct Extension {
    pub extn_id: Vec<u8>,
    pub critical: bool,
    pub extn_value: Vec<u8>,
}

/// The to-be-signed body. Algorithm identifiers, names, validity and the subject public
/// key info are held as the content octets of their DER SEQUENCE; the serial number as
/// the content octets of its INTEGER (minimal big-endian two's complement).
#[derive(Debug, Clone, PartialEq, Eq)]
pub struct TBSCertificate {
    pub version: Version,
    pub serial_number: Vec<u8>,
    pub signature: Vec<u8>,
    pub issuer: Vec<u8>,
    pub validity: Vec<u8>,
    pub subject: Vec<u8>,
    pub subject_public_key_info: Vec<u8>,
    pub extensions: Vec<Extension>,
}

/// A certificate: body, outer signature algorithm (SEQUENCE content) and the signature
/// as a bit string (`unused_bits` of the last octet of `signature_value` are padding).
#[derive(Debug, Clone, PartialEq, Eq)]
pub struct Certificate {
    pub tbs_certificate: TBSCertificate,
    pub signature_algorithm: Vec<u8>,
    pub unused_bits: u8,
    pub signature_value: Vec<u8>,
}

/// Mathematical value of an `Extension`.
pub struct ExtensionView {
    pub id: Seq<u8>,
    pub critical: bool,
    pub value: Seq<u8>,
}

/// Mathematical value of a `TBSCertificate`.
pub struct TbsView {
    pub version: Version,
    pub serial_number: Seq<u8>,
    pub signature: Seq<u8>,
    pub issuer: Seq<u8>,
    pub validity: Seq<u8>,
    pub subject: Seq<u8>,
    pub subject_public_key_info: Seq<u8>,
    pub extensions: Seq<ExtensionView>,
}

/// Mathematical value of a `Certificate`.
pub struct CertificateView {
    pub tbs: TbsView,
    pub signature_algorithm: Seq<u8>,
    pub unused_bits: u8,
    pub signature_value: Seq<u8>,
}

impl View for Extension {
    type V = ExtensionView;

    open spec fn view(&self) -> ExtensionView {
        ExtensionView { id: self.extn_id@, critical: self.critical, value: self.extn_value@ }
    }
}

impl View for TBSCertificate {
    type V = TbsView;

    open spec fn view(&self) -> TbsView {
        TbsView {
            version: self.version,
            serial_number: self.serial_number@,
            signature: self.signature@,
            issuer: self.issuer@,
            validity: self.validity@,
            subject: self.subject@,
            subject_public_key_info: self.subject_public_key_info@,
            extensions: self.extensions@.map_values(|e: Extension| e@),
        }
    }
}

impl View for Certificate {
    type V = CertificateView;

    open spec fn view(&self) -> CertificateView {
        CertificateView {
            tbs: self.tbs_certificate@,
            signature_algorithm: self.signature_algorithm@,
            unused_bits: self.unused_bits,
            signature_value: self.signature_value@,
        }
    }
}

/// The encoding of the `critical` flag: DEFAULT FALSE is left out.
pub open spec fn critical_encoding(critical: bool) -> Seq<u8> {
    if critical {
        seq![TAG_BOOLEAN, 0x01u8, 0xFFu8]
    } else {
        seq![]
    }
}

pub open spec fn extension_content(e: ExtensionView) -> Seq<u8> {
    tlv(TAG_OID, e.id) + critical_encoding(e.critical) + tlv(TAG_OCTET_STRING, e.value)
}

pub open spec fn extension_encoding(e: ExtensionView) -> Seq<u8> {
    tlv(TAG_SEQUENCE, extension_content(e))
}

/// The extensions' encodings, one after another, in list order.
pub open spec fn extensions_content(s: Seq<ExtensionView>) -> Seq<u8>
    decreases s.len(),
{
    if s.len() == 0 {
        seq![]
    } else {
        extensions_content(s.drop_last()) + extension_encoding(s.last())
    }
}

/// The extension list under its explicit context tag 3.
pub open spec fn extensions_field(s: Seq<ExtensionView>) -> Seq<u8> {
    tlv(TAG_EXTENSIONS, tlv(TAG_SEQUENCE, extensions_content(s)))
}

/// The version under its explicit context tag 0.
pub open spec fn version_encoding(v: Version) -> Seq<u8> {
    tlv(TAG_VERSION, tlv(TAG_INTEGER, seq![v.number()]))
}

/// Tag of the body field with index `i` below 6 (0 is the serial number).
pub open spec fn field_tag(i: int) -> u8 {
    if i == 0 {
        TAG_INTEGER
    } else {
        TAG_SEQUENCE
    }
}

impl TbsView {
    /// Content octets of the body field with index `i` below 6.
    pub open spec fn part(self, i: int) -> Seq<u8> {
        if i == 0 {
            self.serial_number
        } else if i == 1 {
            self.signature
        } else if i == 2 {
            self.issuer
        } else if i == 3 {
            self.validity
        } else if i == 4 {
            self.subject
        } else {
            self.subject_public_key_info
        }
    }

    /// Encoding of the body field with index `i` (0: serial number .. 6: extensions).
    pub open spec fn field(self, i: int) -> Seq<u8> {
        if i < 6 {
            tlv(field_tag(i), self.part(i))
        } else {
            extensions_field(self.extensions)
        }
    }

    /// The body content up to and without the field with index `n`.
    pub open spec fn prefix(self, n: int) -> Seq<u8>
        decreases n,
    {
        if n <= 0 {
            version_encoding(self.version)
        } else {
            self.prefix(n - 1) + self.field(n - 1)
        }
    }

    /// The content octets of the body SEQUENCE.
    pub open spec fn content(self) -> Seq<u8> {
        self.prefix(7)
    }

    pub open spec fn valid(self) -> bool {
        &&& valid_serial(self.serial_number)
        &&& forall|i: int| 0 <= i < 6 ==> #[trigger] self.part(i).len() < CONTENT_LIMIT
        &&& valid_extensions(self.extensions)
        &&& self.content().len() < CONTENT_LIMIT
    }
}

/// Minimal big-endian two's-complement content of a DER INTEGER.
pub open spec fn valid_serial(s: Seq<u8>) -> bool {
    &&& s.len() > 0
    &&& s.len() > 1 ==> !(s[0] == 0x00 && s[1] < 0x80)
    &&& s.len() > 1 ==> !(s[0] == 0xFF && s[1] >= 0x80)
}

/// Every extension is valid and the list's SEQUENCE fits the size limit.
pub open spec fn valid_extensions(s: Seq<ExtensionView>) -> bool {
    &&& forall|i: int| 0 <= i < s.len() ==> valid_extension(#[trigger] s[i])
    &&& tlv(TAG_SEQUENCE, extensions_content(s)).len() < CONTENT_LIMIT
}

pub open spec fn valid_extension(e: ExtensionView) -> bool {
    &&& e.id.len() > 0
    &&& e.id.len() < CONTENT_LIMIT
    &&& e.value.len() < CONTENT_LIMIT
    &&& extension_content(e).len() < CONTENT_LIMIT
}

/// Content octets of the BIT STRING that holds the signature.
pub open spec fn bit_string_content(unused_bits: u8, bits: Seq<u8>) -> Seq<u8> {
    seq![unused_bits] + bits
}

pub open spec fn valid_bit_string(unused_bits: u8, bits: Seq<u8>) -> bool {
    &&& unused_bits <= 7
    &&& bits.len() == 0 ==> unused_bits == 0
}

impl CertificateView {
    pub open spec fn content(self) -> Seq<u8> {
        tlv(TAG_SEQUENCE, self.tbs.content()) + tlv(TAG_SEQUENCE, self.signature_algorithm) + tlv(
            TAG_BIT_STRING,
            bit_string_content(self.unused_bits, self.signature_value),
        )
    }

    /// A certificate that has a DER encoding within the codec's size limits.
    pub open spec fn valid(self) -> bool {
        &&& self.tbs.valid()
        &&& self.signature_algorithm.len() < CONTENT_LIMIT
        &&& valid_bit_string(self.unused_bits, self.signature_value)
        &&& self.signature_value.len() + 1 < CONTENT_LIMIT
        &&& self.content().len() < CONTENT_LIMIT
    }
}

/// The DER encoding of a certificate.
pub open spec fn der_encoding(c: CertificateView) -> Seq<u8> {
    tlv(TAG_SEQUENCE, c.content())
}

/// The views of a list of extensions.
pub open spec fn extensions_view(v: Seq<Extension>) -> Seq<ExtensionView> {
    v.map_values(|e: Extension| e@)
}

/// The extensions of a prefix of the list come first in the encoding of the whole list.
pub proof fn lemma_extensions_prefix(s: Seq<ExtensionView>, k: int)
    requires
        0 <= k <= s.len(),
    ensures
        extensions_content(s.take(k)).len() <= extensions_content(s).len(),
        extensions_content(s).subrange(0, extensions_content(s.take(k)).len() as int)
            == extensions_content(s.take(k)),
    decreases s.len(),
{
    if k == s.len() {
        assert(s.take(k) =~= s);
    } else {
        assert(s.drop_last().take(k) =~= s.take(k));
        lemma_extensions_prefix(s.drop_last(), k);
        let a = extensions_content(s.drop_last());
        let b = extension_encoding(s.last());
        assert((a + b).subrange(0, extensions_content(s.take(k)).len() as int)
            =~= a.subrange(0, extensions_content(s.take(k)).len() as int));
    }
}

/// The encoding of a list one longer is the shorter one's followed by the new extension.
pub proof fn lemma_extensions_step(s: Seq<ExtensionView>, k: int)
    requires
        0 <= k < s.len(),
    ensures
        extensions_content(s.take(k + 1)) == extensions_content(s.take(k)) + extension_encoding(
            s[k],
        ),
{
    assert(s.take(k + 1).drop_last() =~= s.take(k));
}

/// Number of header octets in front of `n` content octets.
pub fn header_len(n: usize) -> (r: usize)
    requires
        n < CONTENT_LIMIT,
    ensures
        r == 1 + crate::der::length_octets(n as nat).len(),
        r <= 5,
{
    if n < 0x80 {
        2
    } else if n < 0x100 {
        3
    } else if n < 0x10000 {
        4
    } else {
        5
    }
}

/// Whether the INTEGER content octets are minimal.
pub fn is_minimal_integer(s: &Vec<u8>) -> (r: bool)
    ensures
        r == valid_serial(s@),
{
    if s.len() == 0 {
        false
    } else if s.len() == 1 {
        true
    } else {
        !(s[0] == 0x00 && s[1] < 0x80) && !(s[0] == 0xFF && s[1] >= 0x80)
    }
}

fn encode_extension(e: &Extension) -> (r: Result<Vec<u8>, DerError>)
    ensures
        match r {
            Ok(v) => valid_extension(e@) && v@ == extension_encoding(e@),
            Err(_) => !valid_extension(e@),
        },
{
    if e.extn_id.len() == 0 {
        return Err(DerError::InvalidValue);
    }
    if e.extn_id.len() >= CONTENT_LIMIT || e.extn_value.len() >= CONTENT_LIMIT {
        return Err(DerError::Oversized);
    }
    let mut content: Vec<u8> = Vec::new();
    push_element(&mut content, TAG_OID, e.extn_id.as_slice());
    if e.critical {
        content.push(TAG_BOOLEAN);
        content.push(0x01);
        content.push(0xFF);
    }
    push_element(&mut content, TAG_OCTET_STRING, e.extn_value.as_slice());
    assert(content@ =~= extension_content(e@));
    if content.len() >= CONTENT_LIMIT {
        return Err(DerError::Oversized);
    }
    let mut out: Vec<u8> = Vec::new();
    push_element(&mut out, TAG_SEQUENCE, content.as_slice());
    assert(out@ =~= extension_encoding(e@));
    Ok(out)
}

/// Encodes the extension list with its explicit tag.
fn encode_extensions(exts: &Vec<Extension>) -> (r: Result<Vec<u8>, DerError>)
    ensures
        match r {
            Ok(v) => valid_extensions(extensions_view(exts@)) && v@ == extensions_field(
                extensions_view(exts@),
            ),
            Err(_) => !valid_extensions(extensions_view(exts@)),
        },
{
    let ghost s = extensions_view(exts@);
    let mut content: Vec<u8> = Vec::new();
    let mut i: usize = 0;
    while i < exts.len()
        invariant
            s == extensions_view(exts@),
            i <= exts@.len(),
            content@ == extensions_content(s.take(i as int)),
            content@.len() < CONTENT_LIMIT,
            forall|j: int| 0 <= j < i ==> valid_extension(#[trigger] s[j]),
        decreases exts@.len() - i,
    {
        let one = encode_extension(&exts[i]);
        match one {
            Ok(v) => {
                proof {
                    lemma_extensions_step(s, i as int);
                }
                push_all(&mut content, v.as_slice());
                i += 1;
                if content.len() >= CONTENT_LIMIT {
                    proof {
                        lemma_extensions_prefix(s, i as int);
                    }
                    return Err(DerError::Oversized);
                }
            },
            Err(e) => {
                assert(!valid_extension(s[i as int]));
                return Err(e);
            },
        }
    }
    assert(s.take(i as int) =~= s);
    let h = header_len(content.len());
    if h + content.len() >= CONTENT_LIMIT {
        return Err(DerError::Oversized);
    }
    let mut list: Vec<u8> = Vec::new();
    push_element(&mut list, TAG_SEQUENCE, content.as_slice());
    let mut out: Vec<u8> = Vec::new();
    push_element(&mut out, TAG_EXTENSIONS, list.as_slice());
    Ok(out)
}

/// Appends the body field with index `i` below 6, after checking its size.
fn push_part(out: &mut Vec<u8>, tag: u8, part: &Vec<u8>) -> (r: Result<(), DerError>)
    ensures
        match r {
            Ok(_) => part@.len() < CONTENT_LIMIT && final(out)@ == old(out)@ + tlv(tag, part@),
            Err(_) => part@.len() >= CONTENT_LIMIT,
        },
{
    if part.len() >= CONTENT_LIMIT {
        return Err(DerError::Oversized);
    }
    push_element(out, tag, part.as_slice());
    Ok(())
}

/// Encodes the content octets of the certificate body.
pub fn encode_tbs_content(t: &TBSCertificate) -> (r: Result<Vec<u8>, DerError>)
    ensures
        match r {
            Ok(v) => t@.valid() && v@ == t@.content(),
            Err(_) => !t@.valid(),
        },
{
    let ghost m = t@;
    if !is_minimal_integer(&t.serial_number) {
        return Err(DerError::InvalidValue);
    }
    let mut content: Vec<u8> = Vec::new();
    content.push(TAG_VERSION);
    content.push(0x03);
    content.push(TAG_INTEGER);
    content.push(0x01);
    content.push(t.version.to_u8());
    assert(content@ =~= m.prefix(0));
    if let Err(e) = push_part(&mut content, TAG_INTEGER, &t.serial_number) {
        assert(m.part(0).len() >= CONTENT_LIMIT);
        return Err(e);
    }
    assert(content@ == m.prefix(1));
    if let Err(e) = push_part(&mut content, TAG_SEQUENCE, &t.signature) {
        assert(m.part(1).len() >= CONTENT_LIMIT);
        return Err(e);
    }
    assert(content@ == m.prefix(2));
    if let Err(e) = push_part(&mut content, TAG_SEQUENCE, &t.issuer) {
        assert(m.part(2).len() >= CONTENT_LIMIT);
        return Err(e);
    }
    assert(content@ == m.prefix(3));
    if let Err(e) = push_part(&mut content, TAG_SEQUENCE, &t.validity) {
        assert(m.part(3).len() >= CONTENT_LIMIT);
        return Err(e);
    }
    assert(content@ == m.prefix(4));
    if let Err(e) = push_part(&mut content, TAG_SEQUENCE, &t.subject) {
        assert(m.part(4).len() >= CONTENT_LIMIT);
        return Err(e);
    }
    assert(content@ == m.prefix(5));
    if let Err(e) = push_part(&mut content, TAG_SEQUENCE, &t.subject_public_key_info) {
        assert(m.part(5).len() >= CONTENT_LIMIT);
        return Err(e);
    }
    assert(content@ == m.prefix(6));
    assert forall|i: int| 0 <= i < 6 implies #[trigger] m.part(i).len() < CONTENT_LIMIT by {}
    let ext = encode_extensions(&t.extensions)?;
    push_all(&mut content, ext.as_slice());
    assert(content@ == m.prefix(7));
    if content.len() >= CONTENT_LIMIT {
        return Err(DerError::Oversized);
    }
    Ok(content)
}

/// Encodes a certificate as DER.
pub fn encode_der(c: &Certificate, element: &str) -> (r: Result<Vec<u8>, CertError>)
    ensures
        match r {
            Ok(v) => c@.valid() && v@ == der_encoding(c@),
            Err(e) => !c@.valid() && (e matches CertError::Asn1Serialization { element: el, .. }
                && el@ == element@),
        },
{
    match encode_certificate(c) {
        Ok(v) => Ok(v),
        Err(source) => Err(CertError::Asn1Serialization { source, element: element.to_owned() }),
    }
}

fn encode_certificate(c: &Certificate) -> (r: Result<Vec<u8>, DerError>)
    ensures
        match r {
            Ok(v) => c@.valid() && v@ == der_encoding(c@),
            Err(_) => !c@.valid(),
        },
{
    let tbs = encode_tbs_content(&c.tbs_certificate)?;
    if c.signature_algorithm.len() >= CONTENT_LIMIT || c.signature_value.len() >= CONTENT_LIMIT - 1 {
        return Err(DerError::Oversized);
    }
    if c.unused_bits > 7 || (c.signature_value.len() == 0 && c.unused_bits != 0) {
        return Err(DerError::InvalidValue);
    }
    let mut content: Vec<u8> = Vec::new();
    push_element(&mut content, TAG_SEQUENCE, tbs.as_slice());
    push_element(&mut content, TAG_SEQUENCE, c.signature_algorithm.as_slice());
    push_header(&mut content, TAG_BIT_STRING, c.signature_value.len() + 1);
    content.push(c.unused_bits);
    push_all(&mut content, c.signature_value.as_slice());
    assert(content@ =~= c@.content());
    if content.len() >= CONTENT_LIMIT {
        return Err(DerError::Oversized);
    }
    let mut out: Vec<u8> = Vec::new();
    push_element(&mut out, TAG_SEQUENCE, content.as_slice());
    Ok(out)
}

} // verus!
