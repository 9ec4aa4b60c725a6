use picky_asn1::wrapper::IntegerAsn1;
use picky_cert::certificate::{encode_der, Certificate, TBSCertificate, Version};
use picky_cert::decode::decode_der;
use picky_cert::serial::serial_number_from_u64;

#[test]
fn serial_number_without_spurious_zero() {
    assert_eq!(serial_number_from_u64(935548868), vec![0x37, 0xc3, 0x57, 0xc4]);
}

#[test]
fn serial_number_high_bit_gets_leading_zero() {
    assert_eq!(serial_number_from_u64(0x80), vec![0x00, 0x80]);
    assert_eq!(serial_number_from_u64(0xff), vec![0x00, 0xff]);
    assert_eq!(serial_number_from_u64(0x8000), vec![0x00, 0x80, 0x00]);
    assert_eq!(serial_number_from_u64(u64::MAX), vec![0x00, 0xff, 0xff, 0xff, 0xff, 0xff, 0xff, 0xff, 0xff]);
}

#[test]
fn serial_number_small_values() {
    assert_eq!(serial_number_from_u64(0), vec![0x00]);
    assert_eq!(serial_number_from_u64(1), vec![0x01]);
    assert_eq!(serial_number_from_u64(0x7f), vec![0x7f]);
    assert_eq!(serial_number_from_u64(0x100), vec![0x01, 0x00]);
}

#[test]
fn serial_number_matches_outside_integer_codec() {
    for n in [0u64, 1, 0x7f, 0x80, 0xff, 0x100, 935548868, 1 << 63, u64::MAX] {
        let ours = serial_number_from_u64(n);
        let theirs = IntegerAsn1::from_bytes_be_unsigned(n.to_be_bytes().to_vec());
        assert_eq!(ours, theirs.0, "value {}", n);
        let mut element = vec![0x02, ours.len() as u8];
        element.extend_from_slice(&ours);
        assert_eq!(picky_asn1_der::to_vec(&theirs).unwrap(), element);
    }
}

#[test]
fn serial_number_in_encoded_certificate() {
    let cert = Certificate {
        tbs_certificate: TBSCertificate {
            version: Version::V1,
            serial_number: serial_number_from_u64(0x80),
            signature: vec![0x06, 0x01, 0x2a],
            issuer: vec![],
            validity: vec![],
            subject: vec![],
            subject_public_key_info: vec![],
            extensions: vec![],
        },
        signature_algorithm: vec![0x06, 0x01, 0x2a],
        unused_bits: 0,
        signature_value: vec![],
    };
    let der = encode_der(&cert, "certificate").unwrap();
    // Body: version V1 under tag 0, then the INTEGER 0x00 0x80.
    assert_eq!(&der[4..13], &[0xa0, 0x03, 0x02, 0x01, 0x00, 0x02, 0x02, 0x00, 0x80]);
    assert_eq!(decode_der(&der, "certificate").unwrap(), cert);
}
