//! The labelled text container around a DER certificate.
use vstd::prelude::*;
use crate::certificate::{Certificate, CertificateView, der_encoding, encode_der};
use crate::decode::decode_der;
use crate::error::CertError;

verus! {

/// A PEM container: a label and the binary payload it carries.
#[derive(Debug, Clone, PartialEq, Eq)]
pub struct Pem {
    pub label: String,
    pub data: Vec<u8>,
}

impl Pem {
    pub fn new(label: &str, data: Vec<u8>) -> (r: Pem)
        ensures
            r.label@ == label@,
            r.data@ == data@,
    {
        Pem { label: label.to_owned(), data }
    }

    pub fn label(&self) -> (r: &str)
        ensures
            r@ == self.label@,
    {
        self.label.as_str()
    }

    pub fn data(&self) -> (r: &[u8])
        ensures
            r@ == self.data@,
    {
        self.data.as_slice()
    }
}

/// Encodes a certificate and wraps the DER payload in a container with `label`.
pub fn encode_pem(c: &Certificate, label: &str, element: &str) -> (r: Result<Pem, CertError>)
    ensures
        match r {
            Ok(p) => c@.valid() && p.label@ == label@ && p.data@ == der_encoding(c@),
            Err(e) => !c@.valid() && (e matches CertError::Asn1Serialization { element: el, .. }
                && el@ == element@),
        },
{
    let der = encode_der(c, element)?;
    Ok(Pem::new(label, der))
}

/// Decodes the certificate in a container whose label must be `expected_label`; on another
/// label fails with that label and decodes nothing.
pub fn decode_pem(pem: &Pem, expected_label: &str, element: &str) -> (r: Result<
    Certificate,
    CertError,
>)
    ensures
        pem.label@ != expected_label@ ==> (r matches Err(CertError::InvalidPemLabel { label })
            && label@ == pem.label@),
        pem.label@ == expected_label@ ==> {
            &&& r matches Ok(c) ==> c@.valid() && der_encoding(c@) == pem.data@
            &&& forall|m: CertificateView|
                m.valid() && #[trigger] der_encoding(m) == pem.data@ ==> (r matches Ok(c) && c@
                    == m)
            &&& !(r matches Err(CertError::InvalidPemLabel { .. }))
        },
        r matches Err(CertError::Asn1Deserialization { element: el, .. }) ==> el@ == element@,
{
    let expected = expected_label.to_owned();
    if pem.label == expected {
        decode_der(pem.data.as_slice(), element)
    } else {
        Err(CertError::InvalidPemLabel { label: pem.label.clone() })
    }
}

} // verus!
