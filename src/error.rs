//! Errors of the certificate codec.
use vstd::prelude::*;
use crate::der::DerError;

verus! {

/// What went wrong while encoding or decoding a certificate.
#[derive(Debug, Clone, PartialEq, Eq)]
pub enum CertError {
    /// The certificate body does not begin with the explicit version tag: a V1-shaped body.
    VersionTagMissing,
    /// The certificate body ends before the field with this index (serial number is 0,
    /// extensions are 6).
    FieldMissing { index: usize },
    /// The DER decoder rejected the input while decoding `element`.
    Asn1Deserialization { source: DerError, element: String },
    /// The DER encoder rejected a value while encoding `element`.
    Asn1Serialization { source: DerError, element: String },
    /// The PEM container carries this label, not the expected one.
    InvalidPemLabel { label: String },
    /// The text is not a PEM container: markers or base64 payload are malformed.
    ContainerFormat,
}

} // verus!
