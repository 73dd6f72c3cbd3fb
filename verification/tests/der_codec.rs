use pemder::BitString;
use pemder::DerObject;
use pemder::EcParameters;
use pemder::Error;
use pemder::Integer;
use pemder::ObjectIdentifier;
use pemder::PrivatePkcs1KeyDer;
use pemder::PrivatePkcs8KeyDer;
use pemder::PrivateSec1KeyDer;
use pemder::Version;

fn p256_oid() -> ObjectIdentifier {
    ObjectIdentifier { bytes: vec![0x2A, 0x86, 0x48, 0xCE, 0x3D, 0x03, 0x01, 0x07] }
}

fn sample_sec1() -> PrivateSec1KeyDer {
    PrivateSec1KeyDer {
        version: Version(1),
        private_key: vec![0x01, 0x02, 0x03],
        parameters: Some(EcParameters(p256_oid())),
        public_key: Some(BitString { unused_bits: 0, data: vec![0x04, 0x05, 0x06] }),
    }
}

fn sec1_der_bytes() -> Vec<u8> {
    vec![
        0x30, 0x1C, 0x02, 0x01, 0x01, 0x04, 0x03, 0x01, 0x02, 0x03, 0xA0, 0x0A, 0x06, 0x08, 0x2A,
        0x86, 0x48, 0xCE, 0x3D, 0x03, 0x01, 0x07, 0xA1, 0x06, 0x03, 0x04, 0x00, 0x04, 0x05, 0x06,
    ]
}

fn small_int(b: u8) -> Integer {
    Integer { bytes: vec![b] }
}

fn sample_pkcs1() -> PrivatePkcs1KeyDer {
    PrivatePkcs1KeyDer {
        version: Version(0),
        modulus: small_int(0x02),
        public_exponent: small_int(0x03),
        private_exponent: small_int(0x04),
        prime1: small_int(0x05),
        prime2: small_int(0x06),
        exponent1: small_int(0x07),
        exponent2: small_int(0x08),
        coefficient: small_int(0x09),
        other_prime_infos: None,
    }
}

#[test]
fn sec1_encodes_to_exact_bytes() {
    assert_eq!(sample_sec1().der_encoded().unwrap(), sec1_der_bytes());
}

#[test]
fn sec1_decodes_from_exact_bytes() {
    let k = PrivateSec1KeyDer::from_der_slice(&sec1_der_bytes()).unwrap();
    assert_eq!(k, sample_sec1());
}

#[test]
fn pkcs1_encode_decode_round_trip() {
    let k = sample_pkcs1();
    let der = k.der_encoded().unwrap();
    assert_eq!(PrivatePkcs1KeyDer::from_der_slice(&der).unwrap(), k);
}

#[test]
fn decoding_is_deterministic() {
    let k = sample_sec1();
    let p8 = PrivatePkcs8KeyDer::try_from_sec1(&k).unwrap();
    let der = p8.der_encoded().unwrap();
    let a = PrivatePkcs8KeyDer::from_der_slice(&der).unwrap();
    let b = PrivatePkcs8KeyDer::from_der_slice(&der).unwrap();
    assert_eq!(a, b);
}

#[test]
fn version_with_high_bit_gets_zero_prefix() {
    // INTEGER 128 must carry a leading zero octet: 02 02 00 80.
    let k = PrivateSec1KeyDer {
        version: Version(128),
        private_key: vec![],
        parameters: None,
        public_key: None,
    };
    let der = k.der_encoded().unwrap();
    assert_eq!(der, vec![0x30, 0x06, 0x02, 0x02, 0x00, 0x80, 0x04, 0x00]);
    assert_eq!(PrivateSec1KeyDer::from_der_slice(&der).unwrap(), k);
}

#[test]
fn non_minimal_integer_is_rejected() {
    // INTEGER 00 01 is not minimal two's complement.
    let bad = vec![0x30, 0x06, 0x02, 0x02, 0x00, 0x01, 0x04, 0x00];
    assert!(matches!(PrivateSec1KeyDer::from_der_slice(&bad), Err(Error::DerDecode)));
}

#[test]
fn trailing_bytes_are_rejected() {
    let mut der = sec1_der_bytes();
    der.push(0x00);
    assert!(matches!(PrivateSec1KeyDer::from_der_slice(&der), Err(Error::DerDecode)));
}

#[test]
fn truncated_input_is_rejected() {
    let der = sec1_der_bytes();
    assert!(matches!(PrivateSec1KeyDer::from_der_slice(&der[..der.len() - 1]), Err(Error::DerDecode)));
}

#[test]
fn long_form_length_round_trips() {
    // 200 content bytes force a two-byte length (81 C8).
    let k = PrivateSec1KeyDer {
        version: Version(0),
        private_key: vec![0xAB; 195],
        parameters: None,
        public_key: None,
    };
    let der = k.der_encoded().unwrap();
    assert_eq!(der[0], 0x30);
    assert_eq!(der[1], 0x81);
    assert_eq!(PrivateSec1KeyDer::from_der_slice(&der).unwrap(), k);
}
