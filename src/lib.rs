//! X.509 v3 certificate model and its DER / PEM encoding contract.
pub mod der;
pub mod error;
pub mod certificate;
pub mod decode;
pub mod pem;
pub mod pem_text;
pub mod serial;
pub mod uniqueness;
