use pemder::Any;
use pemder::Attribute;
use pemder::Attributes;
use pemder::BitString;
use pemder::DerObject;
use pemder::EcParameters;
use pemder::Integer;
use pemder::ObjectIdentifier;
use pemder::OtherPrimeInfo;
use pemder::OtherPrimeInfos;
use pemder::Pkcs8Parameters;
use pemder::PrivatePkcs1KeyDer;
use pemder::PrivatePkcs8KeyDer;
use pemder::PrivateSec1KeyDer;
use pemder::Version;

fn p256_oid() -> ObjectIdentifier {
    ObjectIdentifier { bytes: vec![0x2A, 0x86, 0x48, 0xCE, 0x3D, 0x03, 0x01, 0x07] }
}

fn sample_sec1() -> PrivateSec1KeyDer {
    PrivateSec1KeyDer {
        version: Version(1),
        private_key: vec![0x0A, 0x0B, 0x0C, 0x0D],
        parameters: Some(EcParameters(p256_oid())),
        public_key: Some(BitString { unused_bits: 0, data: vec![0x04, 0x11, 0x22] }),
    }
}

fn small_int(b: u8) -> Integer {
    Integer { bytes: vec![b] }
}

fn sample_pkcs1() -> PrivatePkcs1KeyDer {
    PrivatePkcs1KeyDer {
        version: Version(1),
        modulus: Integer { bytes: vec![0x01, 0x23, 0x45] },
        public_exponent: small_int(0x03),
        private_exponent: small_int(0x04),
        prime1: small_int(0x05),
        prime2: small_int(0x06),
        exponent1: small_int(0x07),
        exponent2: small_int(0x08),
        coefficient: small_int(0x09),
        other_prime_infos: Some(
            OtherPrimeInfos(vec![
                OtherPrimeInfo { prime: small_int(0x0B), exponent: small_int(0x0C), coefficient: small_int(0x0D) },
            ]),
        ),
    }
}

#[test]
fn sec1_to_pkcs8_carries_curve_in_algorithm() {
    let k = sample_sec1();
    let p8 = PrivatePkcs8KeyDer::try_from_sec1(&k).unwrap();
    assert_eq!(p8.version, Version(0));
    assert_eq!(p8.algorithm.algorithm.bytes, vec![0x2A, 0x86, 0x48, 0xCE, 0x3D, 0x02, 0x01]);
    assert_eq!(p8.algorithm.parameters, Some(Pkcs8Parameters::Ec(p256_oid())));
    assert_eq!(p8.attributes, None);
    // the inner encoding no longer duplicates the curve parameters
    let inner = PrivateSec1KeyDer::from_der_slice(&p8.private_key).unwrap();
    assert_eq!(inner.parameters, None);
    assert_eq!(inner.private_key, k.private_key);
}

#[test]
fn sec1_pkcs8_round_trip_preserves_fields() {
    let k = sample_sec1();
    let p8 = PrivatePkcs8KeyDer::try_from_sec1(&k).unwrap();
    let back = PrivateSec1KeyDer::try_from_pkcs8(&p8).unwrap();
    assert_eq!(back.private_key, k.private_key);
    assert_eq!(back.public_key, k.public_key);
    assert_eq!(back.parameters, k.parameters);
    assert_eq!(back.version, k.version);
}

#[test]
fn sec1_without_curve_round_trips_without_parameters() {
    let k = PrivateSec1KeyDer {
        version: Version(1),
        private_key: vec![0x01],
        parameters: None,
        public_key: None,
    };
    let p8 = PrivatePkcs8KeyDer::try_from_sec1(&k).unwrap();
    assert_eq!(p8.algorithm.parameters, None);
    let back = PrivateSec1KeyDer::try_from_pkcs8(&p8).unwrap();
    assert_eq!(back, k);
}

#[test]
fn pkcs1_pkcs8_round_trip_is_identity() {
    let k = sample_pkcs1();
    let p8 = PrivatePkcs8KeyDer::try_from_pkcs1(&k).unwrap();
    assert_eq!(p8.version, Version(0));
    assert_eq!(
        p8.algorithm.algorithm.bytes,
        vec![0x2A, 0x86, 0x48, 0x86, 0xF7, 0x0D, 0x01, 0x01, 0x01]
    );
    assert_eq!(p8.algorithm.parameters, Some(Pkcs8Parameters::Rsa));
    let back = PrivatePkcs1KeyDer::try_from_pkcs8(&p8).unwrap();
    assert_eq!(back, k);
}

#[test]
fn pkcs8_with_attributes_and_unknown_params_round_trips() {
    let p8 = PrivatePkcs8KeyDer {
        version: Version(0),
        algorithm: pemder::AlgorithmIdentifier {
            algorithm: ObjectIdentifier { bytes: vec![0x2B, 0x65, 0x70] },
            // an opaque context-tagged value: kept losslessly
            parameters: Some(Pkcs8Parameters::Unknown(Any { bytes: vec![0x87, 0x01, 0xFF] })),
        },
        private_key: vec![0xDE, 0xAD],
        attributes: Some(
            Attributes(vec![
                Attribute {
                    value_type: ObjectIdentifier { bytes: vec![0x55, 0x04, 0x03] },
                    values: vec![Any { bytes: vec![0x05, 0x00] }],
                },
            ]),
        ),
    };
    let der = p8.der_encoded().unwrap();
    assert_eq!(PrivatePkcs8KeyDer::from_der_slice(&der).unwrap(), p8);
}

#[test]
fn pkcs8_to_sec1_fails_on_rsa_inner_bytes() {
    let k = sample_pkcs1();
    let p8 = PrivatePkcs8KeyDer::try_from_pkcs1(&k).unwrap();
    // the inner bytes are not a SEC1 structure, whatever the algorithm says
    assert!(PrivateSec1KeyDer::try_from_pkcs8(&p8).is_err());
}
