//! Structural conversion between the key-container formats.
//!
//! SEC1 and PKCS#1 keys are wrapped into PKCS#8 by building the matching
//! algorithm identifier and re-encoding the inner key; a PKCS#8 key is
//! unwrapped by decoding its `private_key` bytes as the requested inner
//! format. The round-trip laws (`lemma_sec1_pkcs8_round_trip`,
//! `lemma_pkcs1_pkcs8_round_trip`) state that wrapping then unwrapping gives
//! the original key back.

use vstd::prelude::*;

use crate::EcParameters;
use crate::Error;
use crate::AlgorithmIdentifier;
use crate::BitString;
use crate::ObjectIdentifier;
use crate::Pkcs8Parameters;
use crate::PrivatePkcs1KeyDer;
use crate::PrivatePkcs8KeyDer;
use crate::PrivateSec1KeyDer;
use crate::Version;
use crate::codec::AlgIdV;
use crate::codec::ParamsV;
use crate::codec::Pkcs1V;
use crate::codec::Pkcs8V;
use crate::codec::Sec1V;
use crate::codec::clone_bytes;
use crate::codec::der_pkcs1;
use crate::codec::der_sec1;
use crate::codec::parse_pkcs1;
use crate::codec::parse_sec1;
use crate::codec::pkcs1_der;
use crate::codec::read_pkcs1;
use crate::codec::read_sec1;
use crate::codec::sec1_der;
use crate::codec::sec1_content;
use crate::codec::sec1_wf;
use crate::codec::pkcs1_wf;
use crate::codec::version_der;
use crate::codec::octets_der;
use crate::codec::bitstr_der;
use crate::codec::oid_der;
use crate::codec::lemma_parse_sec1_of_der;
use crate::codec::lemma_parse_pkcs1_of_der;
use crate::codec::TAG_CTX_0;
use crate::codec::TAG_CTX_1;
use crate::der::tlv;

verus! {

/// The content octets of the elliptic-curve public-key object identifier.
pub open spec fn ec_oid() -> Seq<u8> {
    seq![0x2Au8, 0x86, 0x48, 0xCE, 0x3D, 0x02, 0x01]
}

/// The content octets of the RSA encryption object identifier.
pub open spec fn rsa_oid() -> Seq<u8> {
    seq![0x2Au8, 0x86, 0x48, 0x86, 0xF7, 0x0D, 0x01, 0x01, 0x01]
}

fn ec_oid_vec() -> (r: Vec<u8>)
    ensures
        r@ == ec_oid(),
{
    let mut v: Vec<u8> = Vec::new();
    v.push(0x2A);
    v.push(0x86);
    v.push(0x48);
    v.push(0xCE);
    v.push(0x3D);
    v.push(0x02);
    v.push(0x01);
    proof {
        assert(v@ =~= ec_oid());
    }
    v
}

fn rsa_oid_vec() -> (r: Vec<u8>)
    ensures
        r@ == rsa_oid(),
{
    let mut v: Vec<u8> = Vec::new();
    v.push(0x2A);
    v.push(0x86);
    v.push(0x48);
    v.push(0x86);
    v.push(0xF7);
    v.push(0x0D);
    v.push(0x01);
    v.push(0x01);
    v.push(0x01);
    proof {
        assert(v@ =~= rsa_oid());
    }
    v
}

/// A SEC1 key with its curve parameters cleared: when the key is wrapped into
/// PKCS#8 the curve moves to the outer algorithm identifier and is not
/// duplicated inside.
pub open spec fn sec1_strip(k: Sec1V) -> Sec1V {
    Sec1V {
        version: k.version,
        private_key: k.private_key,
        parameters: None,
        public_key: k.public_key,
    }
}

/// What wrapping a SEC1 key into PKCS#8 produces.
pub open spec fn sec1_to_pkcs8_spec(k: Sec1V) -> Pkcs8V {
    Pkcs8V {
        version: Version(0),
        algorithm: AlgIdV {
            algorithm: ec_oid(),
            parameters: match k.parameters {
                Some(c) => Some(ParamsV::Ec(c)),
                None => None,
            },
        },
        private_key: sec1_der(sec1_strip(k)),
        attributes: None,
    }
}

/// What wrapping a PKCS#1 key into PKCS#8 produces.
pub open spec fn pkcs1_to_pkcs8_spec(k: Pkcs1V) -> Pkcs8V {
    Pkcs8V {
        version: Version(0),
        algorithm: AlgIdV { algorithm: rsa_oid(), parameters: Some(ParamsV::Rsa) },
        private_key: pkcs1_der(k),
        attributes: None,
    }
}

/// What unwrapping a PKCS#8 key as SEC1 produces: the decoded inner key, with
/// the curve of the outer algorithm identifier (or none) overriding whatever
/// the inner structure carried.
pub open spec fn pkcs8_to_sec1_spec(p: Pkcs8V) -> Option<Sec1V> {
    match parse_sec1(p.private_key) {
        None => None,
        Some(inner) => Some(
            Sec1V {
                version: inner.version,
                private_key: inner.private_key,
                parameters: match p.algorithm.parameters {
                    Some(ParamsV::Ec(c)) => Some(c),
                    _ => None,
                },
                public_key: inner.public_key,
            },
        ),
    }
}

/// What unwrapping a PKCS#8 key as PKCS#1 produces: the decoded inner key,
/// with no field remapping.
pub open spec fn pkcs8_to_pkcs1_spec(p: Pkcs8V) -> Option<Pkcs1V> {
    parse_pkcs1(p.private_key)
}

impl PrivatePkcs8KeyDer {
    /// Wraps a SEC1 key: EC algorithm identifier carrying the curve, inner
    /// key re-encoded with its curve parameters cleared.
    pub fn try_from_sec1(key: &PrivateSec1KeyDer) -> (r: Result<PrivatePkcs8KeyDer, Error>)
        ensures
            r matches Ok(p) && p@ == sec1_to_pkcs8_spec(key@),
    {
        let parameters = match &key.parameters {
            Some(p) => Some(
                Pkcs8Parameters::Ec(ObjectIdentifier { bytes: clone_bytes(&p.0.bytes) }),
            ),
            None => None,
        };
        let ec = PrivateSec1KeyDer {
            version: key.version,
            private_key: clone_bytes(&key.private_key),
            parameters: None,
            public_key: match &key.public_key {
                Some(b) => Some(BitString { unused_bits: b.unused_bits, data: clone_bytes(&b.data) }),
                None => None,
            },
        };
        proof {
            assert(ec@ == sec1_strip(key@));
        }
        let der = der_sec1(&ec);
        Ok(
            PrivatePkcs8KeyDer {
                version: Version(0),
                algorithm: AlgorithmIdentifier {
                    algorithm: ObjectIdentifier { bytes: ec_oid_vec() },
                    parameters,
                },
                private_key: der,
                attributes: None,
            },
        )
    }

    /// Wraps a PKCS#1 key: RSA algorithm identifier with NULL parameters,
    /// inner key re-encoded unchanged.
    pub fn try_from_pkcs1(key: &PrivatePkcs1KeyDer) -> (r: Result<PrivatePkcs8KeyDer, Error>)
        ensures
            r matches Ok(p) && p@ == pkcs1_to_pkcs8_spec(key@),
    {
        Ok(
            PrivatePkcs8KeyDer {
                version: Version(0),
                algorithm: AlgorithmIdentifier {
                    algorithm: ObjectIdentifier { bytes: rsa_oid_vec() },
                    parameters: Some(Pkcs8Parameters::Rsa),
                },
                private_key: der_pkcs1(key),
                attributes: None,
            },
        )
    }
}

impl PrivateSec1KeyDer {
    /// Unwraps a PKCS#8 key as SEC1. The outer algorithm tag is not checked;
    /// the inner bytes alone decide whether decoding succeeds.
    pub fn try_from_pkcs8(key: &PrivatePkcs8KeyDer) -> (r: Result<PrivateSec1KeyDer, Error>)
        ensures
            (r matches Ok(k) ==> pkcs8_to_sec1_spec(key@) == Some(k@)),
            (r matches Err(e) ==> pkcs8_to_sec1_spec(key@) is None && e is DerDecode),
    {
        let parameters = match &key.algorithm.parameters {
            Some(Pkcs8Parameters::Ec(c)) => Some(
                EcParameters(ObjectIdentifier { bytes: clone_bytes(&c.bytes) }),
            ),
            _ => None,
        };
        let ec = match read_sec1(key.private_key.as_slice()) {
            Ok(v) => v,
            Err(()) => {
                return Err(Error::DerDecode);
            },
        };
        Ok(
            PrivateSec1KeyDer {
                version: ec.version,
                private_key: ec.private_key,
                parameters,
                public_key: ec.public_key,
            },
        )
    }
}

impl PrivatePkcs1KeyDer {
    /// Unwraps a PKCS#8 key as PKCS#1. The outer algorithm tag is not
    /// checked; the inner bytes alone decide whether decoding succeeds.
    pub fn try_from_pkcs8(key: &PrivatePkcs8KeyDer) -> (r: Result<PrivatePkcs1KeyDer, Error>)
        ensures
            (r matches Ok(k) ==> pkcs8_to_pkcs1_spec(key@) == Some(k@)),
            (r matches Err(e) ==> pkcs8_to_pkcs1_spec(key@) is None && e is DerDecode),
    {
        match read_pkcs1(key.private_key.as_slice()) {
            Ok(v) => Ok(v),
            Err(()) => Err(Error::DerDecode),
        }
    }
}

/// Law: a well-formed SEC1 key wrapped into PKCS#8 and unwrapped again keeps
/// its private key, its public key and its curve parameters, and its version.
pub proof fn lemma_sec1_pkcs8_round_trip(k: Sec1V)
    requires
        sec1_wf(k),
    ensures
        pkcs8_to_sec1_spec(sec1_to_pkcs8_spec(k)) matches Some(k2) && {
            &&& k2.private_key == k.private_key
            &&& k2.public_key == k.public_key
            &&& k2.parameters == k.parameters
            &&& k2.version == k.version
        },
{
    let ks = sec1_strip(k);
    let v = version_der(k.version);
    let o = octets_der(k.private_key);
    let q: Seq<u8> = match k.public_key {
        Some(b) => tlv(TAG_CTX_1, bitstr_der(b)),
        None => Seq::empty(),
    };
    let p: Seq<u8> = match k.parameters {
        Some(oid) => tlv(TAG_CTX_0, oid_der(oid)),
        None => Seq::empty(),
    };
    assert(sec1_content(k) == v + o + p + q);
    assert(sec1_content(ks) == v + o + Seq::<u8>::empty() + q);
    assert(sec1_content(ks).len() <= sec1_content(k).len());
    assert(sec1_wf(ks));
    lemma_parse_sec1_of_der(ks);
}

/// Law: a well-formed PKCS#1 key wrapped into PKCS#8 and unwrapped again is
/// identical to the original.
pub proof fn lemma_pkcs1_pkcs8_round_trip(k: Pkcs1V)
    requires
        pkcs1_wf(k),
    ensures
        pkcs8_to_pkcs1_spec(pkcs1_to_pkcs8_spec(k)) == Some(k),
{
    lemma_parse_pkcs1_of_der(k);
}

} // verus!
