use picky_cert::certificate::{encode_der, Certificate, Extension, TBSCertificate, Version};
use picky_cert::decode::decode_der;
use picky_cert::der::DerError;
use picky_cert::error::CertError;
use picky_cert::pem::{decode_pem, encode_pem, Pem};
use picky_cert::pem_text::decode_pem_text;

fn reference_certificate() -> Vec<u8> {
    base64::decode(
        "MIIEGjCCAgKgAwIBAgIEN8NXxDANBgkqhkiG9w0BAQsFADAiMSAwHgYDVQQ\
         DDBdjb250b3NvLmxvY2FsIEF1dGhvcml0eTAeFw0xOTEwMTcxNzQxMjhaFw0yMjEwM\
         TYxNzQxMjhaMB0xGzAZBgNVBAMMEnRlc3QuY29udG9zby5sb2NhbDCCASIwDQYJKoZ\
         IhvcNAQEBBQADggEPADCCAQoCggEBAMptALdk7xKj9JmFSycxlaTV47oLv5Aabir17\
         f1WseAcZ492Mx0wqcJMmT8rVAusyfqvrhodHu4GELGBySo4KChLEuoEOGTNw/wEMtM\
         6j1E9K7kig1iiuH9nf9oow7OUdix4+w7TWQWpwl1NekKdTtvLLtEGSjmG187CUqR6f\
         NHYag+iVMV5Umc5VQadvAgva8qxOsPpDkN/E2df5gST7H5g3igaZtxUa3x7VreN3qJ\
         P0+hYQiyM7KsgmdFAkKpHC6/k36H7SXtpzh0NbH5OJHifYsAP34WL+a6lAd0VM7UiI\
         RMcLWA8HfmKL3p4bC+LFv5I0dvUUy1BTz1wHpRvVz8CAwEAAaNdMFswCQYDVR0TBAI\
         wADAOBgNVHQ8BAf8EBAMCAaAwHQYDVR0OBBYEFCMimIgHf5c00sI9jZzeWoMLsR60M\
         B8GA1UdIwQYMBaAFBbHC24DEnsUFLz/zmqB5cMCHo9OMA0GCSqGSIb3DQEBCwUAA4I\
         CAQA1ehZTTBbes2DgGXwQugoV9PdOGMFEVT4dzrrluo/4exSfqLrNuY2NXVuNBKW4n\
         DA5aD71Q/KUZ8Y8cV9qa8OBJQvQ0dd0qeHmeEYdDsj5YD4ECycKx9U1ZX5fi6tpSIX\
         6DsietpCnrw4aTgbEOvMeQcuYCTP30Vpt+mYEKBlR/E2Vcl2zUD+67gqppSaC1RceL\
         /8Cy6ZXlPqwmS2zqK9UhYVRKlEww8xSh/9CR9MmIDc4pHtCpMawcn6Dmo+A+LcKi5v\
         /NIwvSJTei+h1gvRhvEOPcf4VZJMHXquNrxkMsKpuu7g/AYH7wl2MBaNaxyNlXY5e5\
         OjxslrbRCfDab11YaJEONcBnapl/+Ajr70uVFN09tDXyk0EHYf75NiRztgVKclna26\
         zP5qRb0JSYNQJW2kIIBX6DhU7kt6RcauF2hJ+jLWOF2vsAS8PdEr7vnR1EGOrrcQ3V\
         UgMscNsDqf50YMi2Inu1Kt2t+QSvYs61ON39aVpqR67nskdUWzFCVgWQVezM1ZagoO\
         yNp7WjRYl8hJ0YVZ7TRtP8nJOkZ6s046YHVWxMuGdqZfd/AUFb9xzzXjGRuuZ1JmSf\
         +VBOFEe2MaPMyMQBeIs3Othz6Fcy6Am5F6c3It31WYJwiCa/NdbMIvGy1xvAN5kzR/\
         Y6hkoQljoSr1rVuszJ9dtvuTccA==",
    )
    .expect("invalid base64")
}

fn tlv(tag: u8, content: &[u8]) -> Vec<u8> {
    let mut out = vec![tag];
    let n = content.len();
    if n < 0x80 {
        out.push(n as u8);
    } else if n < 0x100 {
        out.push(0x81);
        out.push(n as u8);
    } else {
        out.push(0x82);
        out.push((n >> 8) as u8);
        out.push(n as u8);
    }
    out.extend_from_slice(content);
    out
}

fn to_hex(bytes: &[u8]) -> String {
    bytes.iter().map(|b| format!("{:02x}", b)).collect()
}

/// Field boundaries inside the reference certificate's body content, which starts at 8:
/// version ends at 13, then serial number, signature algorithm, issuer, validity, subject,
/// subject public key info; the extensions end at 522.
const BOUNDS: [usize; 7] = [13, 19, 34, 70, 102, 133, 427];

/// A certificate whose body content is `body` and whose tail is the reference's.
fn with_body(encoded: &[u8], body: &[u8]) -> Vec<u8> {
    let mut content = tlv(0x30, body);
    content.extend_from_slice(&encoded[522..]);
    tlv(0x30, &content)
}

#[test]
fn x509_v3_certificate() {
    let encoded = reference_certificate();
    assert_eq!(encoded.len(), 1054);

    let cert = decode_der(&encoded, "certificate").expect("decodes");
    let tbs = &cert.tbs_certificate;

    // Issuer and subject: a single common name each.
    assert_eq!(tbs.issuer, encoded[36..70].to_vec());
    assert!(String::from_utf8_lossy(&tbs.issuer).contains("contoso.local Authority"));
    assert_eq!(tbs.subject, encoded[104..133].to_vec());
    assert!(String::from_utf8_lossy(&tbs.subject).contains("test.contoso.local"));

    // Validity: 2019-10-17 17:41:28 to 2022-10-16 17:41:28, UTC.
    assert_eq!(tbs.validity, encoded[72..102].to_vec());
    assert_eq!(&tbs.validity[2..15], b"191017174128Z");
    assert_eq!(&tbs.validity[17..30], b"221016174128Z");

    // Subject public key info: the RSA modulus and the exponent 65537.
    assert_eq!(tbs.subject_public_key_info, encoded[137..427].to_vec());
    assert_eq!(&encoded[422..427], &[0x02, 0x03, 0x01, 0x00, 0x01]);

    // Serial number 935548868.
    assert_eq!(tbs.version, Version::V3);
    assert_eq!(tbs.serial_number, 935548868u32.to_be_bytes().to_vec());

    // Extensions, in order.
    assert_eq!(tbs.extensions.len(), 4);
    assert_eq!(tbs.extensions[0].extn_id, vec![0x55, 0x1d, 0x13]);
    assert!(!tbs.extensions[0].critical);
    assert_eq!(tbs.extensions[0].extn_value, vec![0x30, 0x00]);
    assert_eq!(tbs.extensions[1].extn_id, vec![0x55, 0x1d, 0x0f]);
    assert!(tbs.extensions[1].critical);
    assert_eq!(tbs.extensions[1].extn_value, vec![0x03, 0x02, 0x01, 0xa0]);
    assert_eq!(tbs.extensions[2].extn_id, vec![0x55, 0x1d, 0x0e]);
    assert_eq!(&tbs.extensions[2].extn_value[2..], &encoded[469..489]);
    assert_eq!(tbs.extensions[3].extn_id, vec![0x55, 0x1d, 0x23]);
    assert_eq!(&tbs.extensions[3].extn_value[4..], &encoded[502..522]);

    // Signature algorithm (sha256WithRSAEncryption) in both places, and the signature.
    assert_eq!(cert.signature_algorithm, encoded[524..537].to_vec());
    assert_eq!(tbs.signature, cert.signature_algorithm);
    assert_eq!(cert.unused_bits, 0);
    assert_eq!(cert.signature_value, encoded[542..1054].to_vec());

    // The whole certificate encodes back to the same bytes.
    assert_eq!(encode_der(&cert, "certificate").unwrap(), encoded);
}

#[test]
fn subject_key_identifier_of_reference_vector() {
    let encoded = reference_certificate();
    let cert = decode_der(&encoded, "certificate").unwrap();
    let ski = &cert.tbs_certificate.extensions[2].extn_value;
    assert_eq!(&ski[..2], &[0x04, 0x14]);
    assert_eq!(to_hex(&ski[2..]), "23229888077f9734d2c23d8d9cde5a830bb11eb4");
    let aki = &cert.tbs_certificate.extensions[3].extn_value;
    assert_eq!(to_hex(&aki[4..]), "16c70b6e03127b1414bcffce6a81e5c3021e8f4e");
}

#[test]
fn round_trip_of_built_certificate() {
    let cert = sample_certificate(vec![
        Extension { extn_id: vec![0x55, 0x1d, 0x13], critical: false, extn_value: vec![0x30, 0x00] },
        Extension { extn_id: vec![0x55, 0x1d, 0x0f], critical: true, extn_value: vec![0x03, 0x02, 0x05, 0xa0] },
    ]);
    let der = encode_der(&cert, "certificate").unwrap();
    assert_eq!(decode_der(&der, "certificate").unwrap(), cert);
}

fn sample_certificate(extensions: Vec<Extension>) -> Certificate {
    Certificate {
        tbs_certificate: TBSCertificate {
            version: Version::V3,
            serial_number: vec![0x00, 0x80],
            signature: vec![0x06, 0x01, 0x2a],
            issuer: vec![],
            validity: vec![0x17, 0x00],
            subject: vec![],
            subject_public_key_info: vec![0x30, 0x00, 0x03, 0x01, 0x00],
            extensions,
        },
        signature_algorithm: vec![0x06, 0x01, 0x2a],
        unused_bits: 0,
        signature_value: vec![0xde, 0xad],
    }
}

#[test]
fn pem_label_fidelity() {
    let encoded = reference_certificate();
    let cert = decode_der(&encoded, "certificate").unwrap();
    let pem = encode_pem(&cert, "CERTIFICATE", "certificate").unwrap();
    assert_eq!(pem.label(), "CERTIFICATE");
    assert_eq!(pem.data(), &encoded[..]);
    assert_eq!(decode_pem(&pem, "CERTIFICATE", "certificate").unwrap(), cert);
    match decode_pem(&pem, "NEW CERTIFICATE REQUEST", "certificate") {
        Err(CertError::InvalidPemLabel { label }) => assert_eq!(label, "CERTIFICATE"),
        other => panic!("unexpected result {:?}", other),
    }
}

#[test]
fn pem_label_is_case_sensitive() {
    let pem = Pem::new("certificate", reference_certificate());
    match decode_pem(&pem, "CERTIFICATE", "certificate") {
        Err(CertError::InvalidPemLabel { label }) => assert_eq!(label, "certificate"),
        other => panic!("unexpected result {:?}", other),
    }
}

#[test]
fn pem_with_bad_payload_reports_element() {
    let pem = Pem::new("CERTIFICATE", vec![0x30, 0x03, 0x02, 0x01]);
    match decode_pem(&pem, "CERTIFICATE", "leaf certificate") {
        Err(CertError::Asn1Deserialization { source, element }) => {
            assert_eq!(source, DerError::Truncated);
            assert_eq!(element, "leaf certificate");
        }
        other => panic!("unexpected result {:?}", other),
    }
}

#[test]
fn body_without_version_tag_is_rejected() {
    let encoded = reference_certificate();
    // The body begins directly with the serial number.
    let body = encoded[13..522].to_vec();
    let der = with_body(&encoded, &body);
    assert_eq!(decode_der(&der, "certificate"), Err(CertError::VersionTagMissing));
    // An empty body has no version tag either.
    let der = with_body(&encoded, &[]);
    assert_eq!(decode_der(&der, "certificate"), Err(CertError::VersionTagMissing));
}

#[test]
fn version_out_of_range_is_rejected() {
    let encoded = reference_certificate();
    let mut body = encoded[8..522].to_vec();
    body[4] = 0x03;
    let der = with_body(&encoded, &body);
    assert_eq!(decode_der(&der, "certificate"), Err(CertError::VersionTagMissing));
}

#[test]
fn truncated_body_names_missing_field() {
    let encoded = reference_certificate();
    for (n, end) in BOUNDS.iter().enumerate() {
        let der = with_body(&encoded, &encoded[8..*end]);
        assert_eq!(decode_der(&der, "certificate"), Err(CertError::FieldMissing { index: n }));
    }
}

#[test]
fn body_cut_inside_a_field_is_a_decoder_error() {
    let encoded = reference_certificate();
    let der = with_body(&encoded, &encoded[8..40]);
    match decode_der(&der, "certificate") {
        Err(CertError::Asn1Deserialization { source, element }) => {
            assert_eq!(source, DerError::Truncated);
            assert_eq!(element, "certificate");
        }
        other => panic!("unexpected result {:?}", other),
    }
}

#[test]
fn trailing_bytes_are_rejected() {
    let mut encoded = reference_certificate();
    encoded.push(0);
    match decode_der(&encoded, "certificate") {
        Err(CertError::Asn1Deserialization { source, .. }) => assert_eq!(source, DerError::TrailingData),
        other => panic!("unexpected result {:?}", other),
    }
}

#[test]
fn wrong_outer_tag_is_rejected() {
    let mut encoded = reference_certificate();
    encoded[0] = 0x31;
    match decode_der(&encoded, "certificate") {
        Err(CertError::Asn1Deserialization { source, .. }) => {
            assert_eq!(source, DerError::UnexpectedTag { expected: 0x30, found: 0x31 })
        }
        other => panic!("unexpected result {:?}", other),
    }
}

#[test]
fn non_minimal_length_is_rejected() {
    // 0x81 0x05 is the long form of a length that fits the short form.
    let der = vec![0x30, 0x81, 0x05, 0, 0, 0, 0, 0];
    match decode_der(&der, "certificate") {
        Err(CertError::Asn1Deserialization { source, .. }) => assert_eq!(source, DerError::BadLength),
        other => panic!("unexpected result {:?}", other),
    }
}

#[test]
fn non_minimal_serial_number_is_rejected() {
    let mut cert = sample_certificate(vec![]);
    cert.tbs_certificate.serial_number = vec![0x00, 0x01];
    match encode_der(&cert, "certificate") {
        Err(CertError::Asn1Serialization { source, element }) => {
            assert_eq!(source, DerError::InvalidValue);
            assert_eq!(element, "certificate");
        }
        other => panic!("unexpected result {:?}", other),
    }
}

#[test]
fn invalid_bit_string_is_not_encoded() {
    let mut cert = sample_certificate(vec![]);
    cert.unused_bits = 8;
    assert!(matches!(
        encode_der(&cert, "certificate"),
        Err(CertError::Asn1Serialization { source: DerError::InvalidValue, .. })
    ));
}

#[test]
fn extension_order_changes_encoding() {
    let a = Extension { extn_id: vec![0x55, 0x1d, 0x13], critical: false, extn_value: vec![0x30, 0x00] };
    let b = Extension { extn_id: vec![0x55, 0x1d, 0x0f], critical: true, extn_value: vec![0x03, 0x02, 0x05, 0xa0] };
    let first = sample_certificate(vec![a.clone(), b.clone()]);
    let second = sample_certificate(vec![b, a]);
    let der1 = encode_der(&first, "certificate").unwrap();
    let der2 = encode_der(&second, "certificate").unwrap();
    assert_ne!(der1, der2);
    assert_eq!(der1.len(), der2.len());
    assert_ne!(decode_der(&der1, "certificate").unwrap(), second);
}

#[test]
fn critical_false_is_left_out() {
    let ext = Extension { extn_id: vec![0x2a], critical: false, extn_value: vec![0x05] };
    let cert = sample_certificate(vec![ext]);
    let der = encode_der(&cert, "certificate").unwrap();
    let needle = [0x30, 0x06, 0x06, 0x01, 0x2a, 0x04, 0x01, 0x05];
    assert!(der.windows(needle.len()).any(|w| w == needle));
}

#[test]
fn explicit_false_critical_flag_is_rejected() {
    // DER leaves a DEFAULT FALSE boolean out; an explicit FALSE is not DER.
    let ext = tlv(0x30, &[0x06, 0x01, 0x2a, 0x01, 0x01, 0x00, 0x04, 0x00]);
    let list = tlv(0xa3, &tlv(0x30, &ext));
    let encoded = reference_certificate();
    let mut body = encoded[8..427].to_vec();
    body.extend_from_slice(&list);
    let der = with_body(&encoded, &body);
    match decode_der(&der, "certificate") {
        Err(CertError::Asn1Deserialization { source, .. }) => assert_eq!(source, DerError::InvalidValue),
        other => panic!("unexpected result {:?}", other),
    }
}

#[test]
fn long_lengths_round_trip() {
    let mut cert = sample_certificate(vec![]);
    cert.signature_value = vec![0x5a; 70000];
    let der = encode_der(&cert, "certificate").unwrap();
    assert_eq!(der[0..2], [0x30, 0x83]);
    assert_eq!(decode_der(&der, "certificate").unwrap(), cert);
}

fn pem_text_of(label: &str, data: &[u8]) -> String {
    let b64 = base64::encode(data);
    let mut text = format!("-----BEGIN {}-----\n", label);
    for chunk in b64.as_bytes().chunks(64) {
        text.push_str(std::str::from_utf8(chunk).unwrap());
        text.push('\n');
    }
    text.push_str(&format!("-----END {}-----\n", label));
    text
}

#[test]
fn pem_text_decodes_reference_certificate() {
    let encoded = reference_certificate();
    let text = pem_text_of("CERTIFICATE", &encoded);
    let cert = decode_pem_text(&text, "CERTIFICATE", "certificate").unwrap();
    assert_eq!(cert, decode_der(&encoded, "certificate").unwrap());
    assert_eq!(encode_der(&cert, "certificate").unwrap(), encoded);
}

#[test]
fn pem_text_with_other_label_is_rejected() {
    let text = pem_text_of("CERTIFICATE", &reference_certificate());
    match decode_pem_text(&text, "PUBLIC KEY", "certificate") {
        Err(CertError::InvalidPemLabel { label }) => assert_eq!(label, "CERTIFICATE"),
        other => panic!("unexpected result {:?}", other),
    }
}

#[test]
fn malformed_pem_text_is_a_container_error() {
    let good = pem_text_of("CERTIFICATE", &reference_certificate());
    // No end marker.
    let cut = good.replace("-----END CERTIFICATE-----\n", "");
    assert_eq!(decode_pem_text(&cut, "CERTIFICATE", "certificate"), Err(CertError::ContainerFormat));
    // End label differs from begin label.
    let other_end = good.replace("-----END CERTIFICATE-----", "-----END CERTIFICATES-----");
    assert_eq!(decode_pem_text(&other_end, "CERTIFICATE", "certificate"), Err(CertError::ContainerFormat));
    // Not base64.
    let bad = "-----BEGIN CERTIFICATE-----\n%%%%\n-----END CERTIFICATE-----\n";
    assert_eq!(decode_pem_text(bad, "CERTIFICATE", "certificate"), Err(CertError::ContainerFormat));
    // Text after the end marker.
    let trailing = format!("{}junk", good);
    assert_eq!(decode_pem_text(&trailing, "CERTIFICATE", "certificate"), Err(CertError::ContainerFormat));
    assert_eq!(decode_pem_text("", "CERTIFICATE", "certificate"), Err(CertError::ContainerFormat));
}

#[test]
fn pem_text_with_bad_payload_reports_element() {
    let text = pem_text_of("CERTIFICATE", &[0x30, 0x00]);
    match decode_pem_text(&text, "CERTIFICATE", "root") {
        Err(CertError::Asn1Deserialization { element, .. }) => assert_eq!(element, "root"),
        other => panic!("unexpected result {:?}", other),
    }
}
