//! Parsing of PEM-armored private keys and structural conversion between the
//! PKCS#8, SEC1 and PKCS#1 private-key container formats.
//!
//! The armor scanner ([`from_slice`]) extracts one labeled base64 body
//! from a byte buffer; the container schemas below encode to and decode from
//! DER through the [`DerObject`] trait; the `try_from_*` methods convert one
//! container into another.

use vstd::prelude::*;

mod codec;
mod convert;
mod der;
mod error;
mod pem;

pub use codec::AlgIdV;
pub use codec::lemma_pkcs8_decode_deterministic;
pub use codec::DerObject;
pub use codec::AttributeV;
pub use codec::BitStringV;
pub use codec::OpiV;
pub use codec::ParamsV;
pub use codec::Pkcs1V;
pub use codec::Pkcs8V;
pub use codec::Sec1V;
pub use convert::ec_oid;
pub use convert::lemma_sec1_pkcs8_round_trip;
pub use convert::lemma_pkcs1_pkcs8_round_trip;
pub use convert::sec1_strip;
pub use convert::rsa_oid;
pub use convert::sec1_to_pkcs8_spec;
pub use convert::pkcs1_to_pkcs8_spec;
pub use convert::pkcs8_to_sec1_spec;
pub use convert::pkcs8_to_pkcs1_spec;
pub use error::Error;
pub use pem::PrivateKeyDer;
pub use pem::ScanOutcome;
pub use pem::ScanState;
pub use pem::SectionKind;
pub use pem::StepResult;
pub use pem::b64_of;
pub use pem::begin_prefix;
pub use pem::end_prefix;
pub use pem::five_dashes;
pub use pem::kind_of;
pub use pem::line_trailer;
pub use pem::line_whole;
pub use pem::lines_inert;
pub use pem::lemma_illegal_section_start;
pub use pem::lemma_missing_section_end;
pub use pem::lemma_unrecognized_close;
pub use pem::lemma_unrecognized_section_skipped;
pub use pem::lemma_unrecognized_section_only;
pub use pem::starts_with;
pub use pem::from_slice;
pub use pem::init_state;
pub use pem::spec_scan;
pub use pem::step_line;

verus! {

/// An ASN.1 schema revision number; the supported conversions always emit `V0`.
#[derive(Debug, Clone, Copy, PartialEq, Eq, Hash, Structural)]
pub struct Version(pub u64);

/// An ASN.1 OBJECT IDENTIFIER, held as its DER content octets.
#[derive(Debug, Clone, PartialEq, Eq, Hash)]
pub struct ObjectIdentifier {
    pub bytes: Vec<u8>,
}

/// An arbitrary-precision ASN.1 INTEGER, held as its DER content octets
/// (minimal two's complement, big-endian).
#[derive(Debug, Clone, PartialEq, Eq, Hash)]
pub struct Integer {
    pub bytes: Vec<u8>,
}

/// An ASN.1 BIT STRING: the data octets and the count of unused trailing bits.
#[derive(Debug, Clone, PartialEq, Eq, Hash)]
pub struct BitString {
    pub unused_bits: u8,
    pub data: Vec<u8>,
}

/// One opaque DER value, held as its complete encoding (tag, length, content).
#[derive(Debug, Clone, PartialEq, Eq, Hash)]
pub struct Any {
    pub bytes: Vec<u8>,
}

/// A generic PKCS#8 private-key container: an algorithm identifier plus the
/// DER encoding of the algorithm-specific inner key.
#[derive(Debug, Clone, PartialEq, Eq, Hash)]
pub struct PrivatePkcs8KeyDer {
    pub version: Version,
    pub algorithm: AlgorithmIdentifier,
    pub private_key: Vec<u8>,
    pub attributes: Option<Attributes>,
}

/// The algorithm tag of a PKCS#8 container.
#[derive(Debug, Clone, PartialEq, Eq, Hash)]
pub struct AlgorithmIdentifier {
    pub algorithm: ObjectIdentifier,
    pub parameters: Option<Pkcs8Parameters>,
}

/// Algorithm-specific parameters: a named curve for EC, NULL for RSA, and a
/// lossless opaque fallback for anything unrecognized.
#[derive(Debug, Clone, PartialEq, Eq, Hash)]
pub enum Pkcs8Parameters {
    Ec(ObjectIdentifier),
    Rsa,
    Unknown(Any),
}

/// The optional attribute list of a PKCS#8 container, carried through
/// uninterpreted.
#[derive(Debug, Clone, PartialEq, Eq, Hash)]
pub struct Attributes(pub Vec<Attribute>);

/// One PKCS#8 attribute: a type identifier and a set of opaque values.
#[derive(Debug, Clone, PartialEq, Eq, Hash)]
pub struct Attribute {
    pub value_type: ObjectIdentifier,
    pub values: Vec<Any>,
}

/// A SEC1 elliptic-curve private-key container.
#[derive(Debug, Clone, PartialEq, Eq, Hash)]
pub struct PrivateSec1KeyDer {
    pub version: Version,
    pub private_key: Vec<u8>,
    pub parameters: Option<EcParameters>,
    pub public_key: Option<BitString>,
}

/// The curve parameters of a SEC1 key: a named-curve object identifier.
#[derive(Debug, Clone, PartialEq, Eq, Hash)]
pub struct EcParameters(pub ObjectIdentifier);

/// A PKCS#1 RSA private-key container.
#[derive(Debug, Clone, PartialEq, Eq, Hash)]
pub struct PrivatePkcs1KeyDer {
    pub version: Version,
    pub modulus: Integer,
    pub public_exponent: Integer,
    pub private_exponent: Integer,
    pub prime1: Integer,
    pub prime2: Integer,
    pub exponent1: Integer,
    pub exponent2: Integer,
    pub coefficient: Integer,
    pub other_prime_infos: Option<OtherPrimeInfos>,
}

/// The extra prime information of an RSA multi-prime key.
#[derive(Debug, Clone, PartialEq, Eq, Hash)]
pub struct OtherPrimeInfos(pub Vec<OtherPrimeInfo>);

/// One extra prime of an RSA multi-prime key.
#[derive(Debug, Clone, PartialEq, Eq, Hash)]
pub struct OtherPrimeInfo {
    pub prime: Integer,
    pub exponent: Integer,
    pub coefficient: Integer,
}

impl View for ObjectIdentifier {
    type V = Seq<u8>;

    open spec fn view(&self) -> Seq<u8> {
        self.bytes@
    }
}

impl View for Integer {
    type V = Seq<u8>;

    open spec fn view(&self) -> Seq<u8> {
        self.bytes@
    }
}

impl View for Any {
    type V = Seq<u8>;

    open spec fn view(&self) -> Seq<u8> {
        self.bytes@
    }
}

impl View for BitString {
    type V = codec::BitStringV;

    open spec fn view(&self) -> codec::BitStringV {
        codec::BitStringV { unused_bits: self.unused_bits, data: self.data@ }
    }
}

impl View for Pkcs8Parameters {
    type V = codec::ParamsV;

    open spec fn view(&self) -> codec::ParamsV {
        match self {
            Pkcs8Parameters::Ec(oid) => codec::ParamsV::Ec(oid@),
            Pkcs8Parameters::Rsa => codec::ParamsV::Rsa,
            Pkcs8Parameters::Unknown(a) => codec::ParamsV::Unknown(a@),
        }
    }
}

impl View for AlgorithmIdentifier {
    type V = codec::AlgIdV;

    open spec fn view(&self) -> codec::AlgIdV {
        codec::AlgIdV {
            algorithm: self.algorithm@,
            parameters: match self.parameters {
                Some(p) => Some(p@),
                None => None,
            },
        }
    }
}

impl View for Attribute {
    type V = codec::AttributeV;

    open spec fn view(&self) -> codec::AttributeV {
        codec::AttributeV {
            value_type: self.value_type@,
            values: self.values@.map_values(|a: Any| a@),
        }
    }
}

impl View for Attributes {
    type V = Seq<codec::AttributeV>;

    open spec fn view(&self) -> Seq<codec::AttributeV> {
        self.0@.map_values(|a: Attribute| a@)
    }
}

impl View for PrivatePkcs8KeyDer {
    type V = codec::Pkcs8V;

    open spec fn view(&self) -> codec::Pkcs8V {
        codec::Pkcs8V {
            version: self.version,
            algorithm: self.algorithm@,
            private_key: self.private_key@,
            attributes: match self.attributes {
                Some(a) => Some(a@),
                None => None,
            },
        }
    }
}

impl View for EcParameters {
    type V = Seq<u8>;

    open spec fn view(&self) -> Seq<u8> {
        self.0@
    }
}

impl View for PrivateSec1KeyDer {
    type V = codec::Sec1V;

    open spec fn view(&self) -> codec::Sec1V {
        codec::Sec1V {
            version: self.version,
            private_key: self.private_key@,
            parameters: match self.parameters {
                Some(p) => Some(p@),
                None => None,
            },
            public_key: match self.public_key {
                Some(b) => Some(b@),
                None => None,
            },
        }
    }
}

impl View for OtherPrimeInfo {
    type V = codec::OpiV;

    open spec fn view(&self) -> codec::OpiV {
        codec::OpiV {
            prime: self.prime@,
            exponent: self.exponent@,
            coefficient: self.coefficient@,
        }
    }
}

impl View for OtherPrimeInfos {
    type V = Seq<codec::OpiV>;

    open spec fn view(&self) -> Seq<codec::OpiV> {
        self.0@.map_values(|o: OtherPrimeInfo| o@)
    }
}

impl View for PrivatePkcs1KeyDer {
    type V = codec::Pkcs1V;

    open spec fn view(&self) -> codec::Pkcs1V {
        codec::Pkcs1V {
            version: self.version,
            modulus: self.modulus@,
            public_exponent: self.public_exponent@,
            private_exponent: self.private_exponent@,
            prime1: self.prime1@,
            prime2: self.prime2@,
            exponent1: self.exponent1@,
            exponent2: self.exponent2@,
            coefficient: self.coefficient@,
            other_prime_infos: match self.other_prime_infos {
                Some(o) => Some(o@),
                None => None,
            },
        }
    }
}

} // verus!
