//! DER encoding and decoding of the key-container schemas.
//!
//! Each container has a mathematical model (`...V` types built from `Seq`),
//! an encoding function (`..._der`), and a parsing function (`parse_...`).
//! The parsers are exact inverses of the encoders on well-formed values
//! (`lemma_parse_sec1_of_der`, `lemma_parse_pkcs1_of_der`), which is what the
//! conversion round trips rest on. The executable encoders and decoders are
//! verified to compute exactly those functions.

use vstd::prelude::*;

use crate::Any;
use crate::Attribute;
use crate::Attributes;
use crate::AlgorithmIdentifier;
use crate::BitString;
use crate::EcParameters;
use crate::Error;
use crate::Integer;
use crate::ObjectIdentifier;
use crate::OtherPrimeInfo;
use crate::OtherPrimeInfos;
use crate::Pkcs8Parameters;
use crate::PrivatePkcs1KeyDer;
use crate::PrivatePkcs8KeyDer;
use crate::PrivateSec1KeyDer;
use crate::Version;
use crate::der::be_val;
use crate::der::parse_tlv;
use crate::der::read_tlv;
use crate::der::tlv;
use crate::der::wrap_tlv;
use crate::der::be_bytes;
use crate::der::lemma_be_bytes_first;
use crate::der::lemma_be_bytes_len;
use crate::der::lemma_be_val_bound;
use crate::der::lemma_be_val_of_bytes;
use crate::der::lemma_parse_tlv_of_tlv;
use crate::der::lemma_pow256_8;
use crate::der::lemma_pow256_mono;
use crate::der::pow256;
use crate::der::push_be;

verus! {

pub const TAG_INTEGER: u8 = 0x02;

pub const TAG_BIT_STRING: u8 = 0x03;

pub const TAG_OCTET_STRING: u8 = 0x04;

pub const TAG_NULL: u8 = 0x05;

pub const TAG_OID: u8 = 0x06;

pub const TAG_SEQUENCE: u8 = 0x30;

pub const TAG_SET: u8 = 0x31;

pub const TAG_CTX_0: u8 = 0xA0;

pub const TAG_CTX_1: u8 = 0xA1;

/// The model of a BIT STRING.
pub struct BitStringV {
    pub unused_bits: u8,
    pub data: Seq<u8>,
}

/// The model of the PKCS#8 algorithm parameters CHOICE.
pub enum ParamsV {
    Ec(Seq<u8>),
    Rsa,
    Unknown(Seq<u8>),
}

/// The model of an algorithm identifier.
pub struct AlgIdV {
    pub algorithm: Seq<u8>,
    pub parameters: Option<ParamsV>,
}

/// The model of one PKCS#8 attribute.
pub struct AttributeV {
    pub value_type: Seq<u8>,
    pub values: Seq<Seq<u8>>,
}

/// The model of a PKCS#8 container.
pub struct Pkcs8V {
    pub version: Version,
    pub algorithm: AlgIdV,
    pub private_key: Seq<u8>,
    pub attributes: Option<Seq<AttributeV>>,
}

/// The model of a SEC1 container.
pub struct Sec1V {
    pub version: Version,
    pub private_key: Seq<u8>,
    pub parameters: Option<Seq<u8>>,
    pub public_key: Option<BitStringV>,
}

/// The model of one extra prime of a multi-prime RSA key.
pub struct OpiV {
    pub prime: Seq<u8>,
    pub exponent: Seq<u8>,
    pub coefficient: Seq<u8>,
}

/// The model of a PKCS#1 container.
pub struct Pkcs1V {
    pub version: Version,
    pub modulus: Seq<u8>,
    pub public_exponent: Seq<u8>,
    pub private_exponent: Seq<u8>,
    pub prime1: Seq<u8>,
    pub prime2: Seq<u8>,
    pub exponent1: Seq<u8>,
    pub exponent2: Seq<u8>,
    pub coefficient: Seq<u8>,
    pub other_prime_infos: Option<Seq<OpiV>>,
}

// ---------------------------------------------------------------------------
// Well-formedness: exactly what the parsers accept of each piece.
// ---------------------------------------------------------------------------

/// OBJECT IDENTIFIER content octets: non-empty, last arc byte final.
pub open spec fn oid_wf(c: Seq<u8>) -> bool {
    c.len() >= 1 && c.last() < 128
}

/// INTEGER content octets: non-empty, minimal two's complement.
pub open spec fn int_wf(c: Seq<u8>) -> bool {
    &&& c.len() >= 1
    &&& c.len() >= 2 ==> !(c[0] == 0 && c[1] < 128) && !(c[0] == 0xFF && c[1] >= 128)
}

/// BIT STRING: at most 7 unused bits, none in an empty string.
pub open spec fn bitstr_wf(b: BitStringV) -> bool {
    b.unused_bits <= 7 && (b.data.len() == 0 ==> b.unused_bits == 0)
}

/// An opaque value: exactly one complete DER value.
pub open spec fn any_wf(c: Seq<u8>) -> bool {
    parse_tlv(c) matches Some((_t, _c, r)) && r.len() == 0
}

/// CHOICE parameters: an `Unknown` value must not collide with the tags that
/// select the `Ec` and `Rsa` variants.
pub open spec fn params_wf(p: ParamsV) -> bool {
    match p {
        ParamsV::Ec(c) => oid_wf(c),
        ParamsV::Rsa => true,
        ParamsV::Unknown(c) => any_wf(c) && c[0] != TAG_OID && c[0] != TAG_NULL,
    }
}

pub open spec fn algid_wf(a: AlgIdV) -> bool {
    &&& oid_wf(a.algorithm)
    &&& (a.parameters matches Some(p) ==> params_wf(p))
}

pub open spec fn attribute_wf(a: AttributeV) -> bool {
    &&& oid_wf(a.value_type)
    &&& forall|i: int| 0 <= i < a.values.len() ==> any_wf(#[trigger] a.values[i])
}

pub open spec fn pkcs8_wf(p: Pkcs8V) -> bool {
    &&& algid_wf(p.algorithm)
    &&& (p.attributes matches Some(s) ==> forall|i: int|
        0 <= i < s.len() ==> attribute_wf(#[trigger] s[i]))
    &&& pkcs8_content(p).len() <= usize::MAX
}

pub open spec fn sec1_wf(k: Sec1V) -> bool {
    &&& (k.parameters matches Some(c) ==> oid_wf(c))
    &&& (k.public_key matches Some(b) ==> bitstr_wf(b))
    &&& sec1_content(k).len() <= usize::MAX
}

pub open spec fn opi_wf(o: OpiV) -> bool {
    int_wf(o.prime) && int_wf(o.exponent) && int_wf(o.coefficient)
}

pub open spec fn pkcs1_wf(k: Pkcs1V) -> bool {
    &&& int_wf(k.modulus)
    &&& int_wf(k.public_exponent)
    &&& int_wf(k.private_exponent)
    &&& int_wf(k.prime1)
    &&& int_wf(k.prime2)
    &&& int_wf(k.exponent1)
    &&& int_wf(k.exponent2)
    &&& int_wf(k.coefficient)
    &&& (k.other_prime_infos matches Some(s) ==> s.len() >= 1 && forall|i: int|
        0 <= i < s.len() ==> opi_wf(#[trigger] s[i]))
    &&& pkcs1_content(k).len() <= usize::MAX
}

// ---------------------------------------------------------------------------
// Encoding.
// ---------------------------------------------------------------------------

/// Minimal INTEGER content octets of an unsigned 64-bit value.
pub open spec fn uint_content(v: u64) -> Seq<u8> {
    if v == 0 {
        seq![0u8]
    } else if be_bytes(v as nat).first() >= 128 {
        seq![0u8] + be_bytes(v as nat)
    } else {
        be_bytes(v as nat)
    }
}

pub open spec fn version_der(v: Version) -> Seq<u8> {
    tlv(TAG_INTEGER, uint_content(v.0))
}

pub open spec fn oid_der(c: Seq<u8>) -> Seq<u8> {
    tlv(TAG_OID, c)
}

pub open spec fn int_der(c: Seq<u8>) -> Seq<u8> {
    tlv(TAG_INTEGER, c)
}

pub open spec fn octets_der(c: Seq<u8>) -> Seq<u8> {
    tlv(TAG_OCTET_STRING, c)
}

pub open spec fn bitstr_der(b: BitStringV) -> Seq<u8> {
    tlv(TAG_BIT_STRING, seq![b.unused_bits] + b.data)
}

pub open spec fn params_der(p: ParamsV) -> Seq<u8> {
    match p {
        ParamsV::Ec(c) => oid_der(c),
        ParamsV::Rsa => tlv(TAG_NULL, Seq::empty()),
        ParamsV::Unknown(c) => c,
    }
}

pub open spec fn algid_content(a: AlgIdV) -> Seq<u8> {
    oid_der(a.algorithm) + match a.parameters {
        Some(p) => params_der(p),
        None => Seq::empty(),
    }
}

pub open spec fn algid_der(a: AlgIdV) -> Seq<u8> {
    tlv(TAG_SEQUENCE, algid_content(a))
}

/// The concatenation of already-encoded parts, in order.
pub open spec fn concat_der(parts: Seq<Seq<u8>>) -> Seq<u8>
    decreases parts.len(),
{
    if parts.len() == 0 {
        Seq::empty()
    } else {
        parts.first() + concat_der(parts.drop_first())
    }
}

pub open spec fn attr_content(a: AttributeV) -> Seq<u8> {
    oid_der(a.value_type) + tlv(TAG_SET, concat_der(a.values))
}

pub open spec fn attr_der(a: AttributeV) -> Seq<u8> {
    tlv(TAG_SEQUENCE, attr_content(a))
}

pub open spec fn attrs_content(s: Seq<AttributeV>) -> Seq<u8> {
    concat_der(s.map_values(|a: AttributeV| attr_der(a)))
}

pub open spec fn pkcs8_content(p: Pkcs8V) -> Seq<u8> {
    version_der(p.version) + algid_der(p.algorithm) + octets_der(p.private_key) + match p
        .attributes {
        Some(s) => tlv(TAG_CTX_0, attrs_content(s)),
        None => Seq::empty(),
    }
}

pub open spec fn pkcs8_der(p: Pkcs8V) -> Seq<u8> {
    tlv(TAG_SEQUENCE, pkcs8_content(p))
}

pub open spec fn sec1_content(k: Sec1V) -> Seq<u8> {
    version_der(k.version) + octets_der(k.private_key) + (match k.parameters {
        Some(c) => tlv(TAG_CTX_0, oid_der(c)),
        None => Seq::empty(),
    }) + (match k.public_key {
        Some(b) => tlv(TAG_CTX_1, bitstr_der(b)),
        None => Seq::empty(),
    })
}

pub open spec fn sec1_der(k: Sec1V) -> Seq<u8> {
    tlv(TAG_SEQUENCE, sec1_content(k))
}

pub open spec fn opi_content(o: OpiV) -> Seq<u8> {
    int_der(o.prime) + int_der(o.exponent) + int_der(o.coefficient)
}

pub open spec fn opi_der(o: OpiV) -> Seq<u8> {
    tlv(TAG_SEQUENCE, opi_content(o))
}

pub open spec fn opis_content(s: Seq<OpiV>) -> Seq<u8> {
    concat_der(s.map_values(|o: OpiV| opi_der(o)))
}

pub open spec fn pkcs1_content(k: Pkcs1V) -> Seq<u8> {
    version_der(k.version) + int_der(k.modulus) + int_der(k.public_exponent) + int_der(
        k.private_exponent,
    ) + int_der(k.prime1) + int_der(k.prime2) + int_der(k.exponent1) + int_der(k.exponent2)
        + int_der(k.coefficient) + (match k.other_prime_infos {
        Some(s) => tlv(TAG_SEQUENCE, opis_content(s)),
        None => Seq::empty(),
    })
}

pub open spec fn pkcs1_der(k: Pkcs1V) -> Seq<u8> {
    tlv(TAG_SEQUENCE, pkcs1_content(k))
}

// ---------------------------------------------------------------------------
// Parsing. Every parser consumes from the front and returns the remainder;
// the parsers of whole containers require the remainder to be empty.
// ---------------------------------------------------------------------------

/// Reads an unsigned 64-bit value from minimal INTEGER content octets.
pub open spec fn parse_uint_content(c: Seq<u8>) -> Option<u64> {
    if !int_wf(c) {
        None
    } else if c[0] >= 128 {
        None
    } else if c.len() > 9 || (c.len() == 9 && c[0] != 0) {
        None
    } else {
        Some(be_val(c) as u64)
    }
}

pub open spec fn parse_version(s: Seq<u8>) -> Option<(Version, Seq<u8>)> {
    match parse_tlv(s) {
        None => None,
        Some((t, c, r)) => if t != TAG_INTEGER {
            None
        } else {
            match parse_uint_content(c) {
                None => None,
                Some(v) => Some((Version(v), r)),
            }
        },
    }
}

pub open spec fn parse_int(s: Seq<u8>) -> Option<(Seq<u8>, Seq<u8>)> {
    match parse_tlv(s) {
        None => None,
        Some((t, c, r)) => if t == TAG_INTEGER && int_wf(c) {
            Some((c, r))
        } else {
            None
        },
    }
}

pub open spec fn parse_octets(s: Seq<u8>) -> Option<(Seq<u8>, Seq<u8>)> {
    match parse_tlv(s) {
        None => None,
        Some((t, c, r)) => if t == TAG_OCTET_STRING {
            Some((c, r))
        } else {
            None
        },
    }
}

pub open spec fn parse_oid(s: Seq<u8>) -> Option<(Seq<u8>, Seq<u8>)> {
    match parse_tlv(s) {
        None => None,
        Some((t, c, r)) => if t == TAG_OID && oid_wf(c) {
            Some((c, r))
        } else {
            None
        },
    }
}

/// Reads one opaque value: its complete encoding and the remainder.
pub open spec fn parse_any(s: Seq<u8>) -> Option<(Seq<u8>, Seq<u8>)> {
    match parse_tlv(s) {
        None => None,
        Some((_t, _c, r)) => Some((s.take(s.len() - r.len()), r)),
    }
}

pub open spec fn parse_bitstr_content(c: Seq<u8>) -> Option<BitStringV> {
    if c.len() >= 1 && c[0] <= 7 && (c.len() == 1 ==> c[0] == 0) {
        Some(BitStringV { unused_bits: c[0], data: c.skip(1) })
    } else {
        None
    }
}

/// The CHOICE of PKCS#8 algorithm parameters, selected by tag.
pub open spec fn parse_params(s: Seq<u8>) -> Option<(ParamsV, Seq<u8>)> {
    match parse_tlv(s) {
        None => None,
        Some((t, c, r)) => if t == TAG_OID {
            if oid_wf(c) {
                Some((ParamsV::Ec(c), r))
            } else {
                None
            }
        } else if t == TAG_NULL {
            if c.len() == 0 {
                Some((ParamsV::Rsa, r))
            } else {
                None
            }
        } else {
            Some((ParamsV::Unknown(s.take(s.len() - r.len())), r))
        },
    }
}

pub open spec fn parse_algid_content(c: Seq<u8>) -> Option<AlgIdV> {
    match parse_oid(c) {
        None => None,
        Some((oid, r)) => if r.len() == 0 {
            Some(AlgIdV { algorithm: oid, parameters: None })
        } else {
            match parse_params(r) {
                None => None,
                Some((p, r2)) => if r2.len() == 0 {
                    Some(AlgIdV { algorithm: oid, parameters: Some(p) })
                } else {
                    None
                },
            }
        },
    }
}

pub open spec fn parse_algid(s: Seq<u8>) -> Option<(AlgIdV, Seq<u8>)> {
    match parse_tlv(s) {
        None => None,
        Some((t, c, r)) => if t != TAG_SEQUENCE {
            None
        } else {
            match parse_algid_content(c) {
                None => None,
                Some(a) => Some((a, r)),
            }
        },
    }
}

/// A SET OF opaque values, read to exhaustion.
pub open spec fn parse_anys(c: Seq<u8>) -> Option<Seq<Seq<u8>>>
    decreases c.len(),
{
    if c.len() == 0 {
        Some(Seq::empty())
    } else {
        match parse_any(c) {
            None => None,
            Some((a, r)) => if r.len() < c.len() {
                match parse_anys(r) {
                    None => None,
                    Some(tail) => Some(seq![a] + tail),
                }
            } else {
                None
            },
        }
    }
}

pub open spec fn parse_attr(s: Seq<u8>) -> Option<(AttributeV, Seq<u8>)> {
    match parse_tlv(s) {
        None => None,
        Some((t, c, r)) => if t != TAG_SEQUENCE {
            None
        } else {
            match parse_oid(c) {
                None => None,
                Some((oid, c1)) => match parse_tlv(c1) {
                    None => None,
                    Some((t2, cset, c2)) => if t2 == TAG_SET && c2.len() == 0 {
                        match parse_anys(cset) {
                            None => None,
                            Some(vals) => Some((AttributeV { value_type: oid, values: vals }, r)),
                        }
                    } else {
                        None
                    },
                },
            }
        },
    }
}

/// A SEQUENCE OF attributes, read to exhaustion.
pub open spec fn parse_attrs(c: Seq<u8>) -> Option<Seq<AttributeV>>
    decreases c.len(),
{
    if c.len() == 0 {
        Some(Seq::empty())
    } else {
        match parse_attr(c) {
            None => None,
            Some((a, r)) => if r.len() < c.len() {
                match parse_attrs(r) {
                    None => None,
                    Some(tail) => Some(seq![a] + tail),
                }
            } else {
                None
            },
        }
    }
}

pub open spec fn parse_pkcs8_content(c: Seq<u8>) -> Option<Pkcs8V> {
    match parse_version(c) {
        None => None,
        Some((v, r1)) => match parse_algid(r1) {
            None => None,
            Some((a, r2)) => match parse_octets(r2) {
                None => None,
                Some((pk, r3)) => if r3.len() == 0 {
                    Some(Pkcs8V { version: v, algorithm: a, private_key: pk, attributes: None })
                } else {
                    match parse_tlv(r3) {
                        None => None,
                        Some((t4, c4, r4)) => if t4 == TAG_CTX_0 && r4.len() == 0 {
                            match parse_attrs(c4) {
                                None => None,
                                Some(s) => Some(
                                    Pkcs8V {
                                        version: v,
                                        algorithm: a,
                                        private_key: pk,
                                        attributes: Some(s),
                                    },
                                ),
                            }
                        } else {
                            None
                        },
                    }
                },
            },
        },
    }
}

/// The whole-input PKCS#8 parser.
pub open spec fn parse_pkcs8(s: Seq<u8>) -> Option<Pkcs8V> {
    match parse_tlv(s) {
        None => None,
        Some((t, c, r)) => if t == TAG_SEQUENCE && r.len() == 0 {
            parse_pkcs8_content(c)
        } else {
            None
        },
    }
}

/// The optional explicitly tagged curve parameters of a SEC1 key.
pub open spec fn parse_sec1_params(s: Seq<u8>) -> Option<(Option<Seq<u8>>, Seq<u8>)> {
    if s.len() > 0 && s[0] == TAG_CTX_0 {
        match parse_tlv(s) {
            None => None,
            Some((_t, c, r)) => match parse_oid(c) {
                None => None,
                Some((oid, rr)) => if rr.len() == 0 {
                    Some((Some(oid), r))
                } else {
                    None
                },
            },
        }
    } else {
        Some((None, s))
    }
}

/// The optional explicitly tagged public key of a SEC1 key.
pub open spec fn parse_sec1_pub(s: Seq<u8>) -> Option<(Option<BitStringV>, Seq<u8>)> {
    if s.len() > 0 && s[0] == TAG_CTX_1 {
        match parse_tlv(s) {
            None => None,
            Some((_t, c, r)) => match parse_tlv(c) {
                None => None,
                Some((t2, c2, r2)) => if t2 == TAG_BIT_STRING && r2.len() == 0 {
                    match parse_bitstr_content(c2) {
                        None => None,
                        Some(b) => Some((Some(b), r)),
                    }
                } else {
                    None
                },
            },
        }
    } else {
        Some((None, s))
    }
}

pub open spec fn parse_sec1_content(c: Seq<u8>) -> Option<Sec1V> {
    match parse_version(c) {
        None => None,
        Some((v, r1)) => match parse_octets(r1) {
            None => None,
            Some((pk, r2)) => match parse_sec1_params(r2) {
                None => None,
                Some((params, r3)) => match parse_sec1_pub(r3) {
                    None => None,
                    Some((pubkey, r4)) => if r4.len() == 0 {
                        Some(
                            Sec1V {
                                version: v,
                                private_key: pk,
                                parameters: params,
                                public_key: pubkey,
                            },
                        )
                    } else {
                        None
                    },
                },
            },
        },
    }
}

/// The whole-input SEC1 parser.
pub open spec fn parse_sec1(s: Seq<u8>) -> Option<Sec1V> {
    match parse_tlv(s) {
        None => None,
        Some((t, c, r)) => if t == TAG_SEQUENCE && r.len() == 0 {
            parse_sec1_content(c)
        } else {
            None
        },
    }
}

pub open spec fn parse_opi(s: Seq<u8>) -> Option<(OpiV, Seq<u8>)> {
    match parse_tlv(s) {
        None => None,
        Some((t, c, r)) => if t != TAG_SEQUENCE {
            None
        } else {
            match parse_int(c) {
                None => None,
                Some((p, c1)) => match parse_int(c1) {
                    None => None,
                    Some((e, c2)) => match parse_int(c2) {
                        None => None,
                        Some((co, c3)) => if c3.len() == 0 {
                            Some((OpiV { prime: p, exponent: e, coefficient: co }, r))
                        } else {
                            None
                        },
                    },
                },
            }
        },
    }
}

/// A SEQUENCE OF extra primes, read to exhaustion.
pub open spec fn parse_opis(c: Seq<u8>) -> Option<Seq<OpiV>>
    decreases c.len(),
{
    if c.len() == 0 {
        Some(Seq::empty())
    } else {
        match parse_opi(c) {
            None => None,
            Some((o, r)) => if r.len() < c.len() {
                match parse_opis(r) {
                    None => None,
                    Some(tail) => Some(seq![o] + tail),
                }
            } else {
                None
            },
        }
    }
}

/// A run of `n` INTEGER fields, in order.
pub open spec fn parse_ints(s: Seq<u8>, n: nat) -> Option<(Seq<Seq<u8>>, Seq<u8>)>
    decreases n,
{
    if n == 0 {
        Some((Seq::empty(), s))
    } else {
        match parse_int(s) {
            None => None,
            Some((c, r)) => match parse_ints(r, (n - 1) as nat) {
                None => None,
                Some((tail, rr)) => Some((seq![c] + tail, rr)),
            },
        }
    }
}

pub open spec fn parse_pkcs1_content(c: Seq<u8>) -> Option<Pkcs1V> {
    match parse_version(c) {
        None => None,
        Some((v, r0)) => match parse_ints(r0, 8) {
            None => None,
            Some((ints, r8)) => if r8.len() == 0 {
                Some(pkcs1_of_fields(v, ints, None))
            } else {
                match parse_tlv(r8) {
                    None => None,
                    Some((t9, c9, r9)) => if t9 == TAG_SEQUENCE && r9.len() == 0 {
                        match parse_opis(c9) {
                            None => None,
                            Some(s) => if s.len() >= 1 {
                                Some(pkcs1_of_fields(v, ints, Some(s)))
                            } else {
                                None
                            },
                        }
                    } else {
                        None
                    },
                }
            },
        },
    }
}

/// Assembles a PKCS#1 model from its version, its eight integers in order,
/// and its optional extra primes.
pub open spec fn pkcs1_of_fields(v: Version, ints: Seq<Seq<u8>>, opis: Option<Seq<OpiV>>) -> Pkcs1V {
    Pkcs1V {
        version: v,
        modulus: ints[0],
        public_exponent: ints[1],
        private_exponent: ints[2],
        prime1: ints[3],
        prime2: ints[4],
        exponent1: ints[5],
        exponent2: ints[6],
        coefficient: ints[7],
        other_prime_infos: opis,
    }
}

/// The whole-input PKCS#1 parser.
pub open spec fn parse_pkcs1(s: Seq<u8>) -> Option<Pkcs1V> {
    match parse_tlv(s) {
        None => None,
        Some((t, c, r)) => if t == TAG_SEQUENCE && r.len() == 0 {
            parse_pkcs1_content(c)
        } else {
            None
        },
    }
}

// ---------------------------------------------------------------------------
// Executable encoding.
// ---------------------------------------------------------------------------

/// An owned copy of a byte vector.
pub(crate) fn clone_bytes(b: &Vec<u8>) -> (r: Vec<u8>)
    ensures
        r@ == b@,
{
    let r = b.clone();
    proof {
        assert(r@ =~= b@);
    }
    r
}

/// An owned copy of `input[a..b]`.
pub fn copy_range(input: &[u8], a: usize, b: usize) -> (r: Vec<u8>)
    requires
        a <= b <= input@.len(),
    ensures
        r@ == input@.subrange(a as int, b as int),
{
    let mut r: Vec<u8> = Vec::new();
    let mut i = a;
    while i < b
        invariant
            a <= i <= b <= input@.len(),
            r@ == input@.subrange(a as int, i as int),
        decreases b - i,
    {
        r.push(input[i]);
        i = i + 1;
        proof {
            assert(r@ =~= input@.subrange(a as int, i as int));
        }
    }
    r
}

fn uint_content_vec(v: u64) -> (r: Vec<u8>)
    ensures
        r@ == uint_content(v),
{
    let mut digits: Vec<u8> = Vec::new();
    push_be(&mut digits, v);
    if digits.len() == 0 {
        digits.push(0);
        proof {
            assert(v == 0);
            assert(digits@ =~= uint_content(v));
        }
        digits
    } else if digits[0] >= 128 {
        let mut out: Vec<u8> = Vec::new();
        out.push(0);
        out.append(&mut digits);
        proof {
            assert(out@ =~= uint_content(v));
        }
        out
    } else {
        proof {
            assert(digits@ =~= uint_content(v));
        }
        digits
    }
}

pub fn der_version(v: Version) -> (r: Vec<u8>)
    ensures
        r@ == version_der(v),
{
    wrap_tlv(TAG_INTEGER, uint_content_vec(v.0))
}

pub fn der_oid(o: &ObjectIdentifier) -> (r: Vec<u8>)
    ensures
        r@ == oid_der(o@),
{
    wrap_tlv(TAG_OID, clone_bytes(&o.bytes))
}

pub fn der_int(x: &Integer) -> (r: Vec<u8>)
    ensures
        r@ == int_der(x@),
{
    wrap_tlv(TAG_INTEGER, clone_bytes(&x.bytes))
}

pub fn der_octets(b: &Vec<u8>) -> (r: Vec<u8>)
    ensures
        r@ == octets_der(b@),
{
    wrap_tlv(TAG_OCTET_STRING, clone_bytes(b))
}

pub fn der_bitstr(b: &BitString) -> (r: Vec<u8>)
    ensures
        r@ == bitstr_der(b@),
{
    let mut c: Vec<u8> = Vec::new();
    c.push(b.unused_bits);
    let mut d = clone_bytes(&b.data);
    c.append(&mut d);
    proof {
        assert(c@ =~= seq![b.unused_bits] + b.data@);
    }
    wrap_tlv(TAG_BIT_STRING, c)
}

pub fn der_params(p: &Pkcs8Parameters) -> (r: Vec<u8>)
    ensures
        r@ == params_der(p@),
{
    match p {
        Pkcs8Parameters::Ec(oid) => der_oid(oid),
        Pkcs8Parameters::Rsa => wrap_tlv(TAG_NULL, Vec::new()),
        Pkcs8Parameters::Unknown(a) => clone_bytes(&a.bytes),
    }
}

pub fn der_algid(a: &AlgorithmIdentifier) -> (r: Vec<u8>)
    ensures
        r@ == algid_der(a@),
{
    let mut c = der_oid(&a.algorithm);
    match &a.parameters {
        Some(p) => {
            let mut pv = der_params(p);
            c.append(&mut pv);
        },
        None => {},
    }
    proof {
        assert(c@ =~= algid_content(a@));
    }
    wrap_tlv(TAG_SEQUENCE, c)
}

proof fn lemma_concat_der_push(parts: Seq<Seq<u8>>, x: Seq<u8>)
    ensures
        concat_der(parts.push(x)) == concat_der(parts) + x,
    decreases parts.len(),
{
    if parts.len() == 0 {
        assert(parts.push(x).drop_first() =~= Seq::<Seq<u8>>::empty());
        assert(concat_der(Seq::<Seq<u8>>::empty()) =~= Seq::<u8>::empty());
        assert(concat_der(parts.push(x)) == parts.push(x).first() + concat_der(
            parts.push(x).drop_first(),
        ));
        assert(concat_der(parts.push(x)) =~= concat_der(parts) + x);
    } else {
        assert(parts.push(x).drop_first() =~= parts.drop_first().push(x));
        lemma_concat_der_push(parts.drop_first(), x);
        assert(concat_der(parts.push(x)) =~= concat_der(parts) + x);
    }
}

/// The concatenated encodings of a SET OF opaque values.
fn der_anys_content(values: &Vec<Any>) -> (r: Vec<u8>)
    ensures
        r@ == concat_der(values@.map_values(|a: Any| a@)),
{
    let ghost all = values@.map_values(|a: Any| a@);
    let mut r: Vec<u8> = Vec::new();
    let mut i: usize = 0;
    while i < values.len()
        invariant
            i <= values@.len(),
            all == values@.map_values(|a: Any| a@),
            r@ == concat_der(all.take(i as int)),
        decreases values@.len() - i,
    {
        let mut av = clone_bytes(&values[i].bytes);
        r.append(&mut av);
        proof {
            assert(all.take(i + 1).drop_last() =~= all.take(i as int));
            assert(all.take(i as int).push(all[i as int]) =~= all.take(i + 1));
            lemma_concat_der_push(all.take(i as int), all[i as int]);
        }
        i = i + 1;
    }
    proof {
        assert(all.take(values@.len() as int) =~= all);
    }
    r
}

pub fn der_attr(a: &Attribute) -> (r: Vec<u8>)
    ensures
        r@ == attr_der(a@),
{
    let mut c = der_oid(&a.value_type);
    let mut setv = wrap_tlv(TAG_SET, der_anys_content(&a.values));
    c.append(&mut setv);
    proof {
        assert(c@ =~= attr_content(a@));
    }
    wrap_tlv(TAG_SEQUENCE, c)
}

/// The concatenated encodings of a SEQUENCE OF attributes.
fn der_attrs_content(attrs: &Attributes) -> (r: Vec<u8>)
    ensures
        r@ == attrs_content(attrs@),
{
    let ghost all = attrs@.map_values(|a: AttributeV| attr_der(a));
    let mut r: Vec<u8> = Vec::new();
    let mut i: usize = 0;
    while i < attrs.0.len()
        invariant
            i <= attrs.0@.len(),
            all == attrs@.map_values(|a: AttributeV| attr_der(a)),
            all.len() == attrs.0@.len(),
            r@ == concat_der(all.take(i as int)),
        decreases attrs.0@.len() - i,
    {
        let mut av = der_attr(&attrs.0[i]);
        proof {
            assert(all[i as int] == attr_der(attrs.0@[i as int]@));
        }
        r.append(&mut av);
        proof {
            assert(all.take(i as int).push(all[i as int]) =~= all.take(i + 1));
            lemma_concat_der_push(all.take(i as int), all[i as int]);
        }
        i = i + 1;
    }
    proof {
        assert(all.take(attrs.0@.len() as int) =~= all);
    }
    r
}

pub fn der_pkcs8(k: &PrivatePkcs8KeyDer) -> (r: Vec<u8>)
    ensures
        r@ == pkcs8_der(k@),
{
    let mut c = der_version(k.version);
    let mut a = der_algid(&k.algorithm);
    c.append(&mut a);
    let mut pk = der_octets(&k.private_key);
    c.append(&mut pk);
    match &k.attributes {
        Some(at) => {
            let mut w = wrap_tlv(TAG_CTX_0, der_attrs_content(at));
            c.append(&mut w);
        },
        None => {},
    }
    proof {
        assert(c@ =~= pkcs8_content(k@));
    }
    wrap_tlv(TAG_SEQUENCE, c)
}

pub fn der_sec1(k: &PrivateSec1KeyDer) -> (r: Vec<u8>)
    ensures
        r@ == sec1_der(k@),
{
    let mut c = der_version(k.version);
    let mut pk = der_octets(&k.private_key);
    c.append(&mut pk);
    match &k.parameters {
        Some(p) => {
            let mut w = wrap_tlv(TAG_CTX_0, der_oid(&p.0));
            c.append(&mut w);
        },
        None => {},
    }
    match &k.public_key {
        Some(b) => {
            let mut w = wrap_tlv(TAG_CTX_1, der_bitstr(b));
            c.append(&mut w);
        },
        None => {},
    }
    proof {
        assert(c@ =~= sec1_content(k@));
    }
    wrap_tlv(TAG_SEQUENCE, c)
}

pub fn der_opi(o: &OtherPrimeInfo) -> (r: Vec<u8>)
    ensures
        r@ == opi_der(o@),
{
    let mut c = der_int(&o.prime);
    let mut e = der_int(&o.exponent);
    c.append(&mut e);
    let mut co = der_int(&o.coefficient);
    c.append(&mut co);
    proof {
        assert(c@ =~= opi_content(o@));
    }
    wrap_tlv(TAG_SEQUENCE, c)
}

/// The concatenated encodings of a SEQUENCE OF extra primes.
fn der_opis_content(opis: &OtherPrimeInfos) -> (r: Vec<u8>)
    ensures
        r@ == opis_content(opis@),
{
    let ghost all = opis@.map_values(|o: OpiV| opi_der(o));
    let mut r: Vec<u8> = Vec::new();
    let mut i: usize = 0;
    while i < opis.0.len()
        invariant
            i <= opis.0@.len(),
            all == opis@.map_values(|o: OpiV| opi_der(o)),
            all.len() == opis.0@.len(),
            r@ == concat_der(all.take(i as int)),
        decreases opis.0@.len() - i,
    {
        let mut ov = der_opi(&opis.0[i]);
        proof {
            assert(all[i as int] == opi_der(opis.0@[i as int]@));
        }
        r.append(&mut ov);
        proof {
            assert(all.take(i as int).push(all[i as int]) =~= all.take(i + 1));
            lemma_concat_der_push(all.take(i as int), all[i as int]);
        }
        i = i + 1;
    }
    proof {
        assert(all.take(opis.0@.len() as int) =~= all);
    }
    r
}

pub fn der_pkcs1(k: &PrivatePkcs1KeyDer) -> (r: Vec<u8>)
    ensures
        r@ == pkcs1_der(k@),
{
    let mut c = der_version(k.version);
    let mut f = der_int(&k.modulus);
    c.append(&mut f);
    let mut f = der_int(&k.public_exponent);
    c.append(&mut f);
    let mut f = der_int(&k.private_exponent);
    c.append(&mut f);
    let mut f = der_int(&k.prime1);
    c.append(&mut f);
    let mut f = der_int(&k.prime2);
    c.append(&mut f);
    let mut f = der_int(&k.exponent1);
    c.append(&mut f);
    let mut f = der_int(&k.exponent2);
    c.append(&mut f);
    let mut f = der_int(&k.coefficient);
    c.append(&mut f);
    match &k.other_prime_infos {
        Some(o) => {
            let mut w = wrap_tlv(TAG_SEQUENCE, der_opis_content(o));
            c.append(&mut w);
        },
        None => {},
    }
    proof {
        assert(c@ =~= pkcs1_content(k@));
    }
    wrap_tlv(TAG_SEQUENCE, c)
}

// ---------------------------------------------------------------------------
// Executable decoding. Every reader computes exactly the matching parser.
// ---------------------------------------------------------------------------

/// A value of a digit string with a leading zero octet.
proof fn lemma_be_val_leading_zero(x: Seq<u8>)
    requires
        x.len() >= 1,
        x[0] == 0,
    ensures
        be_val(x) == be_val(x.skip(1)),
    decreases x.len(),
{
    if x.len() == 1 {
        assert(x.drop_last() =~= Seq::<u8>::empty());
        assert(x.skip(1) =~= Seq::<u8>::empty());
    } else {
        lemma_be_val_leading_zero(x.drop_last());
        assert(x.drop_last().skip(1) =~= x.skip(1).drop_last());
        assert(x.skip(1).last() == x.last());
    }
}

/// The unsigned value of well-formed INTEGER content octets fits in 64 bits.
proof fn lemma_uint_content_bound(c: Seq<u8>)
    requires
        c.len() >= 1,
        c.len() <= 9,
        c.len() == 9 ==> c[0] == 0,
    ensures
        be_val(c) < 0x1_0000_0000_0000_0000,
{
    lemma_pow256_8();
    if c.len() <= 8 {
        lemma_be_val_bound(c);
        lemma_pow256_mono(c.len() as nat, 8);
    } else {
        lemma_be_val_leading_zero(c);
        lemma_be_val_bound(c.skip(1));
        assert(c.skip(1).len() == 8);
    }
}

/// Reads an INTEGER holding an unsigned 64-bit value.
fn read_version_at(input: &[u8], i: usize) -> (r: Result<(Version, usize), ()>)
    requires
        i <= input@.len(),
    ensures
        (r matches Ok((v, j)) ==> i <= j <= input@.len() && parse_version(input@.skip(i as int))
            == Some((v, input@.skip(j as int)))),
        r is Err ==> parse_version(input@.skip(i as int)) is None,
{
    let (t, cs, ce) = match read_tlv(input, i) {
        Ok(v) => v,
        Err(()) => {
            return Err(());
        },
    };
    if t != TAG_INTEGER {
        return Err(());
    }
    let ghost c = input@.subrange(cs as int, ce as int);
    let clen = ce - cs;
    if clen == 0 {
        return Err(());
    }
    let b0 = input[cs];
    proof {
        assert(c[0] == input@[cs as int]);
    }
    if clen >= 2 {
        let b1 = input[cs + 1];
        proof {
            assert(c[1] == input@[cs + 1]);
        }
        if (b0 == 0 && b1 < 128) || (b0 == 0xFF && b1 >= 128) {
            return Err(());
        }
    }
    if b0 >= 128 {
        return Err(());
    }
    if clen > 9 || (clen == 9 && b0 != 0) {
        return Err(());
    }
    let ghost cl = clen as int;
    let mut v: u128 = 0;
    let mut m: usize = 0;
    proof {
        lemma_pow256_8();
        assert(pow256(9) == 0x100_0000_0000_0000_0000);
        assert(pow256(10) == 0x1_0000_0000_0000_0000_0000);
    }
    while m < clen
        invariant
            m <= clen,
            clen <= 9,
            cs + clen == ce <= input@.len(),
            c == input@.subrange(cs as int, ce as int),
            v as nat == be_val(c.take(m as int)),
            v < pow256(9),
            pow256(9) == 0x100_0000_0000_0000_0000,
            pow256(10) == 0x1_0000_0000_0000_0000_0000,
        decreases clen - m,
    {
        proof {
            assert(v * 256 + 256 <= pow256(9) * 256) by (nonlinear_arith)
                requires
                    v < pow256(9),
            ;
            assert(pow256(10) == 256 * pow256(9));
            assert(c.take(m + 1).drop_last() =~= c.take(m as int));
        }
        let b = input[cs + m];
        proof {
            assert(c[m as int] == input@[cs + m]);
        }
        v = v * 256 + (b as u128);
        m = m + 1;
        proof {
            assert(c.take(m as int).last() == c[m - 1]);
            lemma_be_val_bound(c.take(m as int));
            lemma_pow256_mono(m as nat, 9);
        }
    }
    proof {
        assert(c.take(cl) =~= c);
        lemma_uint_content_bound(c);
    }
    Ok((Version(v as u64), ce))
}

/// Reads an arbitrary-precision INTEGER.
fn read_int_at(input: &[u8], i: usize) -> (r: Result<(Integer, usize), ()>)
    requires
        i <= input@.len(),
    ensures
        (r matches Ok((x, j)) ==> i <= j <= input@.len() && parse_int(input@.skip(i as int))
            == Some((x@, input@.skip(j as int)))),
        r is Err ==> parse_int(input@.skip(i as int)) is None,
{
    let (t, cs, ce) = match read_tlv(input, i) {
        Ok(v) => v,
        Err(()) => {
            return Err(());
        },
    };
    if t != TAG_INTEGER {
        return Err(());
    }
    let ghost c = input@.subrange(cs as int, ce as int);
    if ce - cs == 0 {
        return Err(());
    }
    proof {
        assert(c[0] == input@[cs as int]);
    }
    if ce - cs >= 2 {
        let b0 = input[cs];
        let b1 = input[cs + 1];
        proof {
            assert(c[1] == input@[cs + 1]);
        }
        if (b0 == 0 && b1 < 128) || (b0 == 0xFF && b1 >= 128) {
            return Err(());
        }
    }
    Ok((Integer { bytes: copy_range(input, cs, ce) }, ce))
}

/// Reads an OBJECT IDENTIFIER.
fn read_oid_at(input: &[u8], i: usize) -> (r: Result<(ObjectIdentifier, usize), ()>)
    requires
        i <= input@.len(),
    ensures
        (r matches Ok((o, j)) ==> i <= j <= input@.len() && parse_oid(input@.skip(i as int))
            == Some((o@, input@.skip(j as int)))),
        r is Err ==> parse_oid(input@.skip(i as int)) is None,
{
    let (t, cs, ce) = match read_tlv(input, i) {
        Ok(v) => v,
        Err(()) => {
            return Err(());
        },
    };
    if t != TAG_OID {
        return Err(());
    }
    let ghost c = input@.subrange(cs as int, ce as int);
    if ce - cs == 0 || input[ce - 1] >= 128 {
        proof {
            if ce - cs != 0 {
                assert(c.last() == input@[ce - 1]);
            }
        }
        return Err(());
    }
    proof {
        assert(c.last() == input@[ce - 1]);
    }
    Ok((ObjectIdentifier { bytes: copy_range(input, cs, ce) }, ce))
}

/// Reads an OCTET STRING.
fn read_octets_at(input: &[u8], i: usize) -> (r: Result<(Vec<u8>, usize), ()>)
    requires
        i <= input@.len(),
    ensures
        (r matches Ok((b, j)) ==> i <= j <= input@.len() && parse_octets(input@.skip(i as int))
            == Some((b@, input@.skip(j as int)))),
        r is Err ==> parse_octets(input@.skip(i as int)) is None,
{
    let (t, cs, ce) = match read_tlv(input, i) {
        Ok(v) => v,
        Err(()) => {
            return Err(());
        },
    };
    if t != TAG_OCTET_STRING {
        return Err(());
    }
    Ok((copy_range(input, cs, ce), ce))
}

/// Reads one opaque value whole.
fn read_any_at(input: &[u8], i: usize) -> (r: Result<(Any, usize), ()>)
    requires
        i <= input@.len(),
    ensures
        (r matches Ok((a, j)) ==> i < j <= input@.len() && parse_any(input@.skip(i as int))
            == Some((a@, input@.skip(j as int)))),
        r is Err ==> parse_any(input@.skip(i as int)) is None,
{
    let (_t, _cs, ce) = match read_tlv(input, i) {
        Ok(v) => v,
        Err(()) => {
            return Err(());
        },
    };
    let ghost s = input@.skip(i as int);
    proof {
        assert(s.take(s.len() - input@.skip(ce as int).len()) =~= input@.subrange(
            i as int,
            ce as int,
        ));
    }
    Ok((Any { bytes: copy_range(input, i, ce) }, ce))
}

/// Reads the algorithm-parameters CHOICE.
fn read_params_at(input: &[u8], i: usize) -> (r: Result<(Pkcs8Parameters, usize), ()>)
    requires
        i <= input@.len(),
    ensures
        (r matches Ok((p, j)) ==> i <= j <= input@.len() && parse_params(input@.skip(i as int))
            == Some((p@, input@.skip(j as int)))),
        r is Err ==> parse_params(input@.skip(i as int)) is None,
{
    let (t, cs, ce) = match read_tlv(input, i) {
        Ok(v) => v,
        Err(()) => {
            return Err(());
        },
    };
    let ghost c = input@.subrange(cs as int, ce as int);
    if t == TAG_OID {
        if ce - cs == 0 || input[ce - 1] >= 128 {
            proof {
                if ce - cs != 0 {
                    assert(c.last() == input@[ce - 1]);
                }
            }
            return Err(());
        }
        proof {
            assert(c.last() == input@[ce - 1]);
        }
        Ok((Pkcs8Parameters::Ec(ObjectIdentifier { bytes: copy_range(input, cs, ce) }), ce))
    } else if t == TAG_NULL {
        if ce - cs != 0 {
            return Err(());
        }
        Ok((Pkcs8Parameters::Rsa, ce))
    } else {
        let ghost s = input@.skip(i as int);
        proof {
            assert(s.take(s.len() - input@.skip(ce as int).len()) =~= input@.subrange(
                i as int,
                ce as int,
            ));
        }
        Ok((Pkcs8Parameters::Unknown(Any { bytes: copy_range(input, i, ce) }), ce))
    }
}

/// Reads an algorithm identifier.
fn read_algid_at(input: &[u8], i: usize) -> (r: Result<(AlgorithmIdentifier, usize), ()>)
    requires
        i <= input@.len(),
    ensures
        (r matches Ok((a, j)) ==> i <= j <= input@.len() && parse_algid(input@.skip(i as int))
            == Some((a@, input@.skip(j as int)))),
        r is Err ==> parse_algid(input@.skip(i as int)) is None,
{
    let (t, cs, ce) = match read_tlv(input, i) {
        Ok(v) => v,
        Err(()) => {
            return Err(());
        },
    };
    if t != TAG_SEQUENCE {
        return Err(());
    }
    let sub = vstd::slice::slice_subrange(input, cs, ce);
    let (oid, j1) = match read_oid_at(sub, 0) {
        Ok(v) => v,
        Err(()) => {
            proof {
                assert(sub@.skip(0) =~= sub@);
            }
            return Err(());
        },
    };
    proof {
        assert(sub@.skip(0) =~= sub@);
    }
    if j1 == sub.len() {
        return Ok((AlgorithmIdentifier { algorithm: oid, parameters: None }, ce));
    }
    let (p, j2) = match read_params_at(sub, j1) {
        Ok(v) => v,
        Err(()) => {
            return Err(());
        },
    };
    if j2 != sub.len() {
        return Err(());
    }
    Ok((AlgorithmIdentifier { algorithm: oid, parameters: Some(p) }, ce))
}

/// Reads a SET OF opaque values to exhaustion.
fn read_anys_all(sub: &[u8]) -> (r: Result<Vec<Any>, ()>)
    ensures
        (r matches Ok(v) ==> parse_anys(sub@) == Some(v@.map_values(|a: Any| a@))),
        r is Err ==> parse_anys(sub@) is None,
{
    let mut out: Vec<Any> = Vec::new();
    let mut i: usize = 0;
    proof {
        assert(sub@.skip(0) =~= sub@);
        assert(out@.map_values(|a: Any| a@) =~= Seq::<Seq<u8>>::empty());
        match parse_anys(sub@) {
            Some(tail) => {
                assert(out@.map_values(|a: Any| a@) + tail =~= tail);
            },
            None => {},
        }
    }
    while i < sub.len()
        invariant
            i <= sub@.len(),
            match parse_anys(sub@.skip(i as int)) {
                Some(tail) => parse_anys(sub@) == Some(out@.map_values(|a: Any| a@) + tail),
                None => parse_anys(sub@) is None,
            },
        decreases sub@.len() - i,
    {
        let ghost before = out@.map_values(|a: Any| a@);
        match read_any_at(sub, i) {
            Ok((a, j)) => {
                proof {
                    assert(sub@.skip(i as int).len() > 0);
                }
                out.push(a);
                proof {
                    assert(out@.map_values(|a: Any| a@) =~= before.push(a@));
                    assert(before.push(a@) =~= before + seq![a@]);
                    match parse_anys(sub@.skip(j as int)) {
                        Some(tail2) => {
                            assert(parse_anys(sub@.skip(i as int)) == Some(seq![a@] + tail2));
                            assert(before + (seq![a@] + tail2) =~= (before + seq![a@]) + tail2);
                        },
                        None => {},
                    }
                }
                i = j;
            },
            Err(()) => {
                proof {
                    assert(sub@.skip(i as int).len() > 0);
                }
                return Err(());
            },
        }
    }
    proof {
        assert(sub@.skip(i as int) =~= Seq::<u8>::empty());
        assert(parse_anys(Seq::<u8>::empty()) == Some(Seq::<Seq<u8>>::empty()));
        assert(out@.map_values(|a: Any| a@) + Seq::<Seq<u8>>::empty() =~= out@.map_values(
            |a: Any| a@,
        ));
    }
    Ok(out)
}

/// Reads one attribute.
fn read_attr_at(input: &[u8], i: usize) -> (r: Result<(Attribute, usize), ()>)
    requires
        i <= input@.len(),
    ensures
        (r matches Ok((a, j)) ==> i < j <= input@.len() && parse_attr(input@.skip(i as int))
            == Some((a@, input@.skip(j as int)))),
        r is Err ==> parse_attr(input@.skip(i as int)) is None,
{
    let (t, cs, ce) = match read_tlv(input, i) {
        Ok(v) => v,
        Err(()) => {
            return Err(());
        },
    };
    if t != TAG_SEQUENCE {
        return Err(());
    }
    let sub = vstd::slice::slice_subrange(input, cs, ce);
    let (oid, j1) = match read_oid_at(sub, 0) {
        Ok(v) => v,
        Err(()) => {
            proof {
                assert(sub@.skip(0) =~= sub@);
            }
            return Err(());
        },
    };
    proof {
        assert(sub@.skip(0) =~= sub@);
    }
    let (t2, cs2, ce2) = match read_tlv(sub, j1) {
        Ok(v) => v,
        Err(()) => {
            return Err(());
        },
    };
    if t2 != TAG_SET || ce2 != sub.len() {
        return Err(());
    }
    let sub2 = vstd::slice::slice_subrange(sub, cs2, ce2);
    let vals = match read_anys_all(sub2) {
        Ok(v) => v,
        Err(()) => {
            return Err(());
        },
    };
    Ok((Attribute { value_type: oid, values: vals }, ce))
}

/// Reads a SEQUENCE OF attributes to exhaustion.
#[verifier::rlimit(100)]
#[verifier::spinoff_prover]
fn read_attrs_all(sub: &[u8]) -> (r: Result<Vec<Attribute>, ()>)
    ensures
        (r matches Ok(v) ==> parse_attrs(sub@) == Some(v@.map_values(|a: Attribute| a@))),
        r is Err ==> parse_attrs(sub@) is None,
{
    let mut out: Vec<Attribute> = Vec::new();
    let mut i: usize = 0;
    proof {
        assert(sub@.skip(0) =~= sub@);
        assert(out@.map_values(|a: Attribute| a@) =~= Seq::<AttributeV>::empty());
        match parse_attrs(sub@) {
            Some(tail) => {
                assert(out@.map_values(|a: Attribute| a@) + tail =~= tail);
            },
            None => {},
        }
    }
    while i < sub.len()
        invariant
            i <= sub@.len(),
            match parse_attrs(sub@.skip(i as int)) {
                Some(tail) => parse_attrs(sub@) == Some(
                    out@.map_values(|a: Attribute| a@) + tail,
                ),
                None => parse_attrs(sub@) is None,
            },
        decreases sub@.len() - i,
    {
        let ghost before = out@.map_values(|a: Attribute| a@);
        match read_attr_at(sub, i) {
            Ok((a, j)) => {
                proof {
                    assert(sub@.skip(i as int).len() > 0);
                }
                let ghost av = a@;
                out.push(a);
                proof {
                    assert(out@.map_values(|a: Attribute| a@) =~= before.push(av));
                    assert(before.push(av) =~= before + seq![av]);
                    match parse_attrs(sub@.skip(j as int)) {
                        Some(tail2) => {
                            assert(parse_attrs(sub@.skip(i as int)) == Some(seq![av] + tail2));
                            assert(before + (seq![av] + tail2) =~= (before + seq![av]) + tail2);
                        },
                        None => {},
                    }
                }
                i = j;
            },
            Err(()) => {
                proof {
                    assert(sub@.skip(i as int).len() > 0);
                }
                return Err(());
            },
        }
    }
    proof {
        assert(sub@.skip(i as int) =~= Seq::<u8>::empty());
        assert(parse_attrs(Seq::<u8>::empty()) == Some(Seq::<AttributeV>::empty()));
        assert(out@.map_values(|a: Attribute| a@) + Seq::<AttributeV>::empty() =~= out@.map_values(
            |a: Attribute| a@,
        ));
    }
    Ok(out)
}

/// Decodes a whole PKCS#8 container.
pub fn read_pkcs8(input: &[u8]) -> (r: Result<PrivatePkcs8KeyDer, ()>)
    ensures
        (r matches Ok(v) ==> parse_pkcs8(input@) == Some(v@)),
        r is Err ==> parse_pkcs8(input@) is None,
{
    let ghost whole = input@;
    proof {
        assert(whole.skip(0) =~= whole);
    }
    let (t, cs, ce) = match read_tlv(input, 0) {
        Ok(v) => v,
        Err(()) => {
            return Err(());
        },
    };
    if t != TAG_SEQUENCE || ce != input.len() {
        return Err(());
    }
    let sub = vstd::slice::slice_subrange(input, cs, ce);
    proof {
        assert(sub@.skip(0) =~= sub@);
    }
    let (ver, i1) = match read_version_at(sub, 0) {
        Ok(v) => v,
        Err(()) => {
            return Err(());
        },
    };
    let (algid, i2) = match read_algid_at(sub, i1) {
        Ok(v) => v,
        Err(()) => {
            return Err(());
        },
    };
    let (pk, i3) = match read_octets_at(sub, i2) {
        Ok(v) => v,
        Err(()) => {
            return Err(());
        },
    };
    if i3 == sub.len() {
        proof {
            assert(sub@.skip(i3 as int).len() == 0);
        }
        return Ok(
            PrivatePkcs8KeyDer { version: ver, algorithm: algid, private_key: pk, attributes: None },
        );
    }
    let (t4, cs4, ce4) = match read_tlv(sub, i3) {
        Ok(v) => v,
        Err(()) => {
            return Err(());
        },
    };
    if t4 != TAG_CTX_0 || ce4 != sub.len() {
        return Err(());
    }
    let sub4 = vstd::slice::slice_subrange(sub, cs4, ce4);
    let at = match read_attrs_all(sub4) {
        Ok(v) => v,
        Err(()) => {
            return Err(());
        },
    };
    Ok(
        PrivatePkcs8KeyDer {
            version: ver,
            algorithm: algid,
            private_key: pk,
            attributes: Some(Attributes(at)),
        },
    )
}

/// The model of optional curve parameters.
pub open spec fn oparams_view(p: Option<EcParameters>) -> Option<Seq<u8>> {
    match p {
        Some(e) => Some(e@),
        None => None,
    }
}

/// The model of an optional public key.
pub open spec fn opub_view(b: Option<BitString>) -> Option<BitStringV> {
    match b {
        Some(x) => Some(x@),
        None => None,
    }
}

/// Reads the optional explicitly tagged curve parameters of a SEC1 key.
fn read_sec1_params_at(sub: &[u8], i: usize) -> (r: Result<(Option<EcParameters>, usize), ()>)
    requires
        i <= sub@.len(),
    ensures
        (r matches Ok((p, j)) ==> i <= j <= sub@.len() && parse_sec1_params(sub@.skip(i as int))
            == Some((oparams_view(p), sub@.skip(j as int)))),
        r is Err ==> parse_sec1_params(sub@.skip(i as int)) is None,
{
    if i < sub.len() && sub[i] == TAG_CTX_0 {
        proof {
            assert(sub@.skip(i as int)[0] == sub@[i as int]);
        }
        let (_t3, cs3, ce3) = match read_tlv(sub, i) {
            Ok(v) => v,
            Err(()) => {
                return Err(());
            },
        };
        let sub3 = vstd::slice::slice_subrange(sub, cs3, ce3);
        proof {
            assert(sub3@.skip(0) =~= sub3@);
        }
        let (oid, jj) = match read_oid_at(sub3, 0) {
            Ok(v) => v,
            Err(()) => {
                return Err(());
            },
        };
        if jj != sub3.len() {
            return Err(());
        }
        Ok((Some(EcParameters(oid)), ce3))
    } else {
        proof {
            if i < sub@.len() {
                assert(sub@.skip(i as int)[0] == sub@[i as int]);
            }
        }
        Ok((None, i))
    }
}

/// Reads the optional explicitly tagged public key of a SEC1 key.
fn read_sec1_pub_at(sub: &[u8], i: usize) -> (r: Result<(Option<BitString>, usize), ()>)
    requires
        i <= sub@.len(),
    ensures
        (r matches Ok((b, j)) ==> i <= j <= sub@.len() && parse_sec1_pub(sub@.skip(i as int))
            == Some((opub_view(b), sub@.skip(j as int)))),
        r is Err ==> parse_sec1_pub(sub@.skip(i as int)) is None,
{
    if i < sub.len() && sub[i] == TAG_CTX_1 {
        proof {
            assert(sub@.skip(i as int)[0] == sub@[i as int]);
        }
        let (_t4, cs4, ce4) = match read_tlv(sub, i) {
            Ok(v) => v,
            Err(()) => {
                return Err(());
            },
        };
        let sub4 = vstd::slice::slice_subrange(sub, cs4, ce4);
        proof {
            assert(sub4@.skip(0) =~= sub4@);
        }
        let (t5, cs5, ce5) = match read_tlv(sub4, 0) {
            Ok(v) => v,
            Err(()) => {
                return Err(());
            },
        };
        if t5 != TAG_BIT_STRING || ce5 != sub4.len() {
            return Err(());
        }
        let ghost c5 = sub4@.subrange(cs5 as int, ce5 as int);
        if ce5 - cs5 == 0 {
            return Err(());
        }
        let unused = sub4[cs5];
        proof {
            assert(c5[0] == sub4@[cs5 as int]);
        }
        if unused > 7 || (ce5 - cs5 == 1 && unused != 0) {
            return Err(());
        }
        let data = copy_range(sub4, cs5 + 1, ce5);
        proof {
            assert(sub4@.subrange(cs5 + 1, ce5 as int) =~= c5.skip(1));
        }
        Ok((Some(BitString { unused_bits: unused, data }), ce4))
    } else {
        proof {
            if i < sub@.len() {
                assert(sub@.skip(i as int)[0] == sub@[i as int]);
            }
        }
        Ok((None, i))
    }
}

/// Decodes a whole SEC1 container.
pub fn read_sec1(input: &[u8]) -> (r: Result<PrivateSec1KeyDer, ()>)
    ensures
        (r matches Ok(v) ==> parse_sec1(input@) == Some(v@)),
        r is Err ==> parse_sec1(input@) is None,
{
    let ghost whole = input@;
    proof {
        assert(whole.skip(0) =~= whole);
    }
    let (t, cs, ce) = match read_tlv(input, 0) {
        Ok(v) => v,
        Err(()) => {
            return Err(());
        },
    };
    if t != TAG_SEQUENCE || ce != input.len() {
        return Err(());
    }
    let sub = vstd::slice::slice_subrange(input, cs, ce);
    proof {
        assert(sub@.skip(0) =~= sub@);
    }
    let (ver, i1) = match read_version_at(sub, 0) {
        Ok(v) => v,
        Err(()) => {
            return Err(());
        },
    };
    let (pk, i2) = match read_octets_at(sub, i1) {
        Ok(v) => v,
        Err(()) => {
            return Err(());
        },
    };
    let (params, i3) = match read_sec1_params_at(sub, i2) {
        Ok(v) => v,
        Err(()) => {
            return Err(());
        },
    };
    let (public_key, i4) = match read_sec1_pub_at(sub, i3) {
        Ok(v) => v,
        Err(()) => {
            return Err(());
        },
    };
    if i4 != sub.len() {
        return Err(());
    }
    Ok(PrivateSec1KeyDer { version: ver, private_key: pk, parameters: params, public_key })
}

/// Reads one extra-prime record.
fn read_opi_at(input: &[u8], i: usize) -> (r: Result<(OtherPrimeInfo, usize), ()>)
    requires
        i <= input@.len(),
    ensures
        (r matches Ok((o, j)) ==> i < j <= input@.len() && parse_opi(input@.skip(i as int))
            == Some((o@, input@.skip(j as int)))),
        r is Err ==> parse_opi(input@.skip(i as int)) is None,
{
    let (t, cs, ce) = match read_tlv(input, i) {
        Ok(v) => v,
        Err(()) => {
            return Err(());
        },
    };
    if t != TAG_SEQUENCE {
        return Err(());
    }
    let sub = vstd::slice::slice_subrange(input, cs, ce);
    proof {
        assert(sub@.skip(0) =~= sub@);
    }
    let (p, j1) = match read_int_at(sub, 0) {
        Ok(v) => v,
        Err(()) => {
            return Err(());
        },
    };
    let (e, j2) = match read_int_at(sub, j1) {
        Ok(v) => v,
        Err(()) => {
            return Err(());
        },
    };
    let (co, j3) = match read_int_at(sub, j2) {
        Ok(v) => v,
        Err(()) => {
            return Err(());
        },
    };
    if j3 != sub.len() {
        return Err(());
    }
    Ok((OtherPrimeInfo { prime: p, exponent: e, coefficient: co }, ce))
}

/// Reads a SEQUENCE OF extra primes to exhaustion.
#[verifier::rlimit(100)]
#[verifier::spinoff_prover]
fn read_opis_all(sub: &[u8]) -> (r: Result<Vec<OtherPrimeInfo>, ()>)
    ensures
        (r matches Ok(v) ==> parse_opis(sub@) == Some(v@.map_values(|o: OtherPrimeInfo| o@))),
        r is Err ==> parse_opis(sub@) is None,
{
    let mut out: Vec<OtherPrimeInfo> = Vec::new();
    let mut i: usize = 0;
    proof {
        assert(sub@.skip(0) =~= sub@);
        assert(out@.map_values(|o: OtherPrimeInfo| o@) =~= Seq::<OpiV>::empty());
        match parse_opis(sub@) {
            Some(tail) => {
                assert(out@.map_values(|o: OtherPrimeInfo| o@) + tail =~= tail);
            },
            None => {},
        }
    }
    while i < sub.len()
        invariant
            i <= sub@.len(),
            match parse_opis(sub@.skip(i as int)) {
                Some(tail) => parse_opis(sub@) == Some(
                    out@.map_values(|o: OtherPrimeInfo| o@) + tail,
                ),
                None => parse_opis(sub@) is None,
            },
        decreases sub@.len() - i,
    {
        let ghost before = out@.map_values(|o: OtherPrimeInfo| o@);
        match read_opi_at(sub, i) {
            Ok((o, j)) => {
                proof {
                    assert(sub@.skip(i as int).len() > 0);
                }
                let ghost ov = o@;
                out.push(o);
                proof {
                    assert(out@.map_values(|o: OtherPrimeInfo| o@) =~= before.push(ov));
                    assert(before.push(ov) =~= before + seq![ov]);
                    match parse_opis(sub@.skip(j as int)) {
                        Some(tail2) => {
                            assert(parse_opis(sub@.skip(i as int)) == Some(seq![ov] + tail2));
                            assert(before + (seq![ov] + tail2) =~= (before + seq![ov]) + tail2);
                        },
                        None => {},
                    }
                }
                i = j;
            },
            Err(()) => {
                proof {
                    assert(sub@.skip(i as int).len() > 0);
                }
                return Err(());
            },
        }
    }
    proof {
        assert(sub@.skip(i as int) =~= Seq::<u8>::empty());
        assert(parse_opis(Seq::<u8>::empty()) == Some(Seq::<OpiV>::empty()));
        assert(out@.map_values(|o: OtherPrimeInfo| o@) + Seq::<OpiV>::empty() =~= out@.map_values(
            |o: OtherPrimeInfo| o@,
        ));
    }
    Ok(out)
}

/// Reads a run of `n` INTEGER fields.
fn read_ints_n(sub: &[u8], i: usize, n: usize) -> (r: Result<(Vec<Integer>, usize), ()>)
    requires
        i <= sub@.len(),
    ensures
        (r matches Ok((v, j)) ==> i <= j <= sub@.len() && v@.len() == n && parse_ints(
            sub@.skip(i as int),
            n as nat,
        ) == Some((v@.map_values(|x: Integer| x@), sub@.skip(j as int)))),
        r is Err ==> parse_ints(sub@.skip(i as int), n as nat) is None,
{
    let mut out: Vec<Integer> = Vec::new();
    let mut m: usize = 0;
    let mut idx = i;
    proof {
        assert(out@.map_values(|x: Integer| x@) =~= Seq::<Seq<u8>>::empty());
        match parse_ints(sub@.skip(i as int), n as nat) {
            Some((tail, rr)) => {
                assert(out@.map_values(|x: Integer| x@) + tail =~= tail);
            },
            None => {},
        }
    }
    while m < n
        invariant
            m <= n,
            i <= idx <= sub@.len(),
            out@.len() == m,
            match parse_ints(sub@.skip(idx as int), (n - m) as nat) {
                Some((tail, rr)) => parse_ints(sub@.skip(i as int), n as nat) == Some(
                    (out@.map_values(|x: Integer| x@) + tail, rr),
                ),
                None => parse_ints(sub@.skip(i as int), n as nat) is None,
            },
        decreases n - m,
    {
        let ghost before = out@.map_values(|x: Integer| x@);
        match read_int_at(sub, idx) {
            Ok((x, j)) => {
                let ghost xv = x@;
                out.push(x);
                proof {
                    assert(out@.map_values(|x: Integer| x@) =~= before.push(xv));
                    assert(before.push(xv) =~= before + seq![xv]);
                    match parse_ints(sub@.skip(j as int), (n - m - 1) as nat) {
                        Some((tail2, rr2)) => {
                            assert(parse_ints(sub@.skip(idx as int), (n - m) as nat) == Some(
                                (seq![xv] + tail2, rr2),
                            ));
                            assert(before + (seq![xv] + tail2) =~= (before + seq![xv]) + tail2);
                        },
                        None => {},
                    }
                }
                idx = j;
                m = m + 1;
            },
            Err(()) => {
                return Err(());
            },
        }
    }
    proof {
        match parse_ints(sub@.skip(idx as int), 0) {
            Some((tail, rr)) => {
                assert(tail =~= Seq::<Seq<u8>>::empty());
                assert(out@.map_values(|x: Integer| x@) + tail =~= out@.map_values(
                    |x: Integer| x@,
                ));
            },
            None => {},
        }
    }
    Ok((out, idx))
}

/// Reads the version and the eight INTEGER fields of a PKCS#1 key.
fn read_pkcs1_fields(sub: &[u8]) -> (r: Result<(PrivatePkcs1KeyDer, usize), ()>)
    ensures
        (r matches Ok((k, j)) ==> j <= sub@.len() && k.other_prime_infos is None && (
        parse_version(sub@) matches Some((v, r0)) && (parse_ints(r0, 8) matches Some((ints, r8))
            && r8 == sub@.skip(j as int) && k@ == pkcs1_of_fields(v, ints, None)))),
        r is Err ==> parse_pkcs1_content(sub@) is None,
{
    proof {
        assert(sub@.skip(0) =~= sub@);
    }
    let (ver, i0) = match read_version_at(sub, 0) {
        Ok(v) => v,
        Err(()) => {
            return Err(());
        },
    };
    let (mut ints, i8) = match read_ints_n(sub, i0, 8) {
        Ok(v) => v,
        Err(()) => {
            return Err(());
        },
    };
    let ghost iv = ints@.map_values(|x: Integer| x@);
    let co = ints.pop().unwrap();
    let e2 = ints.pop().unwrap();
    let e1 = ints.pop().unwrap();
    let p2 = ints.pop().unwrap();
    let p1 = ints.pop().unwrap();
    let d = ints.pop().unwrap();
    let e = ints.pop().unwrap();
    let n = ints.pop().unwrap();
    proof {
        assert(n@ == iv[0] && e@ == iv[1] && d@ == iv[2] && p1@ == iv[3] && p2@ == iv[4] && e1@
            == iv[5] && e2@ == iv[6] && co@ == iv[7]);
    }
    Ok(
        (
            PrivatePkcs1KeyDer {
                version: ver,
                modulus: n,
                public_exponent: e,
                private_exponent: d,
                prime1: p1,
                prime2: p2,
                exponent1: e1,
                exponent2: e2,
                coefficient: co,
                other_prime_infos: None,
            },
            i8,
        ),
    )
}

/// Decodes a whole PKCS#1 container.
pub fn read_pkcs1(input: &[u8]) -> (r: Result<PrivatePkcs1KeyDer, ()>)
    ensures
        (r matches Ok(v) ==> parse_pkcs1(input@) == Some(v@)),
        r is Err ==> parse_pkcs1(input@) is None,
{
    let ghost whole = input@;
    proof {
        assert(whole.skip(0) =~= whole);
    }
    let (t, cs, ce) = match read_tlv(input, 0) {
        Ok(v) => v,
        Err(()) => {
            return Err(());
        },
    };
    if t != TAG_SEQUENCE || ce != input.len() {
        return Err(());
    }
    let sub = vstd::slice::slice_subrange(input, cs, ce);
    let (k, i8) = match read_pkcs1_fields(sub) {
        Ok(v) => v,
        Err(()) => {
            return Err(());
        },
    };
    if i8 == sub.len() {
        proof {
            assert(sub@.skip(i8 as int).len() == 0);
        }
        return Ok(k);
    }
    let (t9, cs9, ce9) = match read_tlv(sub, i8) {
        Ok(v) => v,
        Err(()) => {
            return Err(());
        },
    };
    if t9 != TAG_SEQUENCE || ce9 != sub.len() {
        return Err(());
    }
    let sub9 = vstd::slice::slice_subrange(sub, cs9, ce9);
    let opis = match read_opis_all(sub9) {
        Ok(v) => v,
        Err(()) => {
            return Err(());
        },
    };
    if opis.len() == 0 {
        return Err(());
    }
    let mut k2 = k;
    k2.other_prime_infos = Some(OtherPrimeInfos(opis));
    Ok(k2)
}

// ---------------------------------------------------------------------------
// The shared DER interface.
// ---------------------------------------------------------------------------

/// Decoding from and encoding to DER bytes, implemented by each container
/// schema. Decoding computes the container's parsing function exactly, so it
/// is deterministic and free of side effects; encoding computes the
/// container's encoding function exactly and cannot fail.
pub trait DerObject: View + Sized {
    /// The parsing function that `from_der_slice` computes.
    spec fn spec_parse(s: Seq<u8>) -> Option<Self::V>;

    /// The encoding function that `der_encoded` computes.
    spec fn spec_der(&self) -> Seq<u8>;

    /// Decodes a whole DER buffer into this container.
    fn from_der_slice(input: &[u8]) -> (r: Result<Self, Error>)
        ensures
            (r matches Ok(v) ==> Self::spec_parse(input@) == Some(v@)),
            (r matches Err(e) ==> Self::spec_parse(input@) is None && e is DerDecode),
    ;

    /// Encodes this container as DER.
    fn der_encoded(&self) -> (r: Result<Vec<u8>, Error>)
        ensures
            r matches Ok(b) && b@ == self.spec_der(),
    ;
}

impl DerObject for PrivatePkcs8KeyDer {
    open spec fn spec_parse(s: Seq<u8>) -> Option<Pkcs8V> {
        parse_pkcs8(s)
    }

    open spec fn spec_der(&self) -> Seq<u8> {
        pkcs8_der(self@)
    }

    fn from_der_slice(input: &[u8]) -> Result<Self, Error> {
        match read_pkcs8(input) {
            Ok(v) => Ok(v),
            Err(()) => Err(Error::DerDecode),
        }
    }

    fn der_encoded(&self) -> Result<Vec<u8>, Error> {
        Ok(der_pkcs8(self))
    }
}

impl DerObject for PrivateSec1KeyDer {
    open spec fn spec_parse(s: Seq<u8>) -> Option<Sec1V> {
        parse_sec1(s)
    }

    open spec fn spec_der(&self) -> Seq<u8> {
        sec1_der(self@)
    }

    fn from_der_slice(input: &[u8]) -> Result<Self, Error> {
        match read_sec1(input) {
            Ok(v) => Ok(v),
            Err(()) => Err(Error::DerDecode),
        }
    }

    fn der_encoded(&self) -> Result<Vec<u8>, Error> {
        Ok(der_sec1(self))
    }
}

impl DerObject for PrivatePkcs1KeyDer {
    open spec fn spec_parse(s: Seq<u8>) -> Option<Pkcs1V> {
        parse_pkcs1(s)
    }

    open spec fn spec_der(&self) -> Seq<u8> {
        pkcs1_der(self@)
    }

    fn from_der_slice(input: &[u8]) -> Result<Self, Error> {
        match read_pkcs1(input) {
            Ok(v) => Ok(v),
            Err(()) => Err(Error::DerDecode),
        }
    }

    fn der_encoded(&self) -> Result<Vec<u8>, Error> {
        Ok(der_pkcs1(self))
    }
}

// ---------------------------------------------------------------------------
// Parsing an encoding gives the value back: the parsers are left inverses of
// the encoders on well-formed values.
// ---------------------------------------------------------------------------

/// A DER value is at least two bytes longer than its content.
pub proof fn lemma_tlv_len(tag: u8, c: Seq<u8>)
    ensures
        tlv(tag, c).len() >= 2 + c.len(),
{
    let n = c.len() as nat;
    if n < 128 {
    } else {
        lemma_be_bytes_first(n);
    }
}

pub proof fn lemma_parse_uint_of_content(v: u64)
    ensures
        parse_uint_content(uint_content(v)) == Some(v),
        int_wf(uint_content(v)),
        1 <= uint_content(v).len() <= 9,
{
    let c = uint_content(v);
    lemma_pow256_8();
    if v == 0 {
        assert(c =~= seq![0u8]);
        assert(c.drop_last() =~= Seq::<u8>::empty());
        assert(be_val(Seq::<u8>::empty()) == 0);
        assert(be_val(c) == 0);
    } else {
        lemma_be_bytes_first(v as nat);
        lemma_be_bytes_len(v as nat, 8);
        lemma_be_val_of_bytes(v as nat);
        let bb = be_bytes(v as nat);
        if bb.first() >= 128 {
            assert(c == seq![0u8] + bb);
            assert(c[0] == 0);
            assert(c[1] == bb[0]);
            assert(c.skip(1) =~= bb);
            lemma_be_val_leading_zero(c);
            assert(be_val(c) == v);
        } else {
            assert(c == bb);
            assert(c[0] == bb[0]);
        }
    }
}

pub proof fn lemma_parse_version_of_der(v: Version, rest: Seq<u8>)
    ensures
        parse_version(version_der(v) + rest) == Some((v, rest)),
{
    lemma_parse_uint_of_content(v.0);
    lemma_parse_tlv_of_tlv(TAG_INTEGER, uint_content(v.0), rest);
    assert(version_der(v) + rest =~= tlv(TAG_INTEGER, uint_content(v.0)) + rest);
}

pub proof fn lemma_parse_int_of_der(c: Seq<u8>, rest: Seq<u8>)
    requires
        int_wf(c),
        c.len() <= usize::MAX,
    ensures
        parse_int(int_der(c) + rest) == Some((c, rest)),
{
    lemma_parse_tlv_of_tlv(TAG_INTEGER, c, rest);
}

pub proof fn lemma_parse_octets_of_der(c: Seq<u8>, rest: Seq<u8>)
    requires
        c.len() <= usize::MAX,
    ensures
        parse_octets(octets_der(c) + rest) == Some((c, rest)),
{
    lemma_parse_tlv_of_tlv(TAG_OCTET_STRING, c, rest);
}

pub proof fn lemma_parse_oid_of_der(c: Seq<u8>, rest: Seq<u8>)
    requires
        oid_wf(c),
        c.len() <= usize::MAX,
    ensures
        parse_oid(oid_der(c) + rest) == Some((c, rest)),
{
    lemma_parse_tlv_of_tlv(TAG_OID, c, rest);
}

/// Parsing the encoding of a well-formed SEC1 key gives the key back.
#[verifier::rlimit(100)]
pub proof fn lemma_parse_sec1_of_der(k: Sec1V)
    requires
        sec1_wf(k),
    ensures
        parse_sec1(sec1_der(k)) == Some(k),
{
    let c = sec1_content(k);
    let vpart = version_der(k.version);
    let opart = octets_der(k.private_key);
    let ppart: Seq<u8> = match k.parameters {
        Some(oid) => tlv(TAG_CTX_0, oid_der(oid)),
        None => Seq::empty(),
    };
    let qpart: Seq<u8> = match k.public_key {
        Some(b) => tlv(TAG_CTX_1, bitstr_der(b)),
        None => Seq::empty(),
    };
    assert(c == vpart + opart + ppart + qpart);
    lemma_tlv_len(TAG_OCTET_STRING, k.private_key);
    assert(k.private_key.len() <= usize::MAX);
    // the outer envelope
    lemma_parse_tlv_of_tlv(TAG_SEQUENCE, c, Seq::empty());
    assert(tlv(TAG_SEQUENCE, c) + Seq::<u8>::empty() =~= sec1_der(k));
    // version
    let r1 = opart + ppart + qpart;
    assert(c =~= vpart + r1);
    lemma_parse_version_of_der(k.version, r1);
    // private key octets
    let r2 = ppart + qpart;
    assert(r1 =~= opart + r2);
    lemma_parse_octets_of_der(k.private_key, r2);
    // curve parameters
    match k.parameters {
        Some(oid) => {
            lemma_tlv_len(TAG_OID, oid);
            lemma_tlv_len(TAG_CTX_0, oid_der(oid));
            assert(oid.len() <= usize::MAX && oid_der(oid).len() <= usize::MAX);
            lemma_parse_tlv_of_tlv(TAG_CTX_0, oid_der(oid), qpart);
            assert(r2 =~= tlv(TAG_CTX_0, oid_der(oid)) + qpart);
            assert(r2[0] == TAG_CTX_0);
            lemma_parse_oid_of_der(oid, Seq::empty());
            assert(oid_der(oid) + Seq::<u8>::empty() =~= oid_der(oid));
            assert(parse_sec1_params(r2) == Some((Some(oid), qpart)));
        },
        None => {
            assert(r2 =~= qpart);
            match k.public_key {
                Some(b) => {
                    assert(r2[0] == TAG_CTX_1);
                    assert(parse_sec1_params(r2) == Some((None::<Seq<u8>>, r2)));
                },
                None => {
                    assert(r2.len() == 0);
                },
            }
        },
    }
    // public key
    match k.public_key {
        Some(b) => {
            let bc = seq![b.unused_bits] + b.data;
            lemma_tlv_len(TAG_BIT_STRING, bc);
            lemma_tlv_len(TAG_CTX_1, bitstr_der(b));
            assert(bc.len() <= usize::MAX && bitstr_der(b).len() <= usize::MAX);
            lemma_parse_tlv_of_tlv(TAG_CTX_1, bitstr_der(b), Seq::empty());
            assert(tlv(TAG_CTX_1, bitstr_der(b)) + Seq::<u8>::empty() =~= qpart);
            assert(qpart[0] == TAG_CTX_1);
            lemma_parse_tlv_of_tlv(TAG_BIT_STRING, bc, Seq::empty());
            assert(tlv(TAG_BIT_STRING, bc) + Seq::<u8>::empty() =~= bitstr_der(b));
            assert(bc[0] == b.unused_bits);
            let parsed = parse_bitstr_content(bc).unwrap();
            assert(parsed.data =~= b.data);
            assert(parsed == b);
            assert(parse_sec1_pub(qpart) == Some((Some(b), Seq::<u8>::empty())));
        },
        None => {
            assert(qpart.len() == 0);
        },
    }
    assert(parse_sec1_content(c) == Some(k));
}

pub proof fn lemma_parse_opi_of_der(o: OpiV, rest: Seq<u8>)
    requires
        opi_wf(o),
        opi_content(o).len() <= usize::MAX,
    ensures
        parse_opi(opi_der(o) + rest) == Some((o, rest)),
{
    let c = opi_content(o);
    lemma_parse_tlv_of_tlv(TAG_SEQUENCE, c, rest);
    let r1 = int_der(o.exponent) + int_der(o.coefficient);
    assert(c =~= int_der(o.prime) + r1);
    lemma_tlv_len(TAG_INTEGER, o.prime);
    lemma_tlv_len(TAG_INTEGER, o.exponent);
    lemma_tlv_len(TAG_INTEGER, o.coefficient);
    lemma_parse_int_of_der(o.prime, r1);
    assert(r1 =~= int_der(o.exponent) + (int_der(o.coefficient) + Seq::<u8>::empty()));
    assert(int_der(o.coefficient) + Seq::<u8>::empty() =~= int_der(o.coefficient));
    lemma_parse_int_of_der(o.exponent, int_der(o.coefficient));
    lemma_parse_int_of_der(o.coefficient, Seq::empty());
    assert(int_der(o.coefficient) + Seq::<u8>::empty() =~= int_der(o.coefficient));
    assert(parse_opi(opi_der(o) + rest) == Some((o, rest)));
}

/// Parsing a concatenation of extra-prime encodings gives the list back.
#[verifier::rlimit(100)]
#[verifier::spinoff_prover]
pub proof fn lemma_parse_opis_of_content(s: Seq<OpiV>)
    requires
        forall|i: int| 0 <= i < s.len() ==> opi_wf(#[trigger] s[i]),
        opis_content(s).len() <= usize::MAX,
    ensures
        parse_opis(opis_content(s)) == Some(s),
    decreases s.len(),
{
    let parts = s.map_values(|o: OpiV| opi_der(o));
    if s.len() == 0 {
        assert(opis_content(s) =~= Seq::<u8>::empty());
        assert(s =~= Seq::<OpiV>::empty());
    } else {
        let head = s[0];
        let tail = s.drop_first();
        let rest = opis_content(tail);
        assert(parts.first() == opi_der(head));
        assert(parts.drop_first() =~= tail.map_values(|o: OpiV| opi_der(o)));
        assert(opis_content(s) == opi_der(head) + rest);
        lemma_tlv_len(TAG_SEQUENCE, opi_content(head));
        lemma_parse_opi_of_der(head, rest);
        assert(forall|i: int| 0 <= i < tail.len() ==> opi_wf(#[trigger] tail[i])) by {
            assert(forall|i: int| 0 <= i < tail.len() ==> tail[i] == s[i + 1]);
        }
        lemma_parse_opis_of_content(tail);
        assert(rest.len() < opis_content(s).len());
        assert(seq![head] + tail =~= s);
    }
}

/// Parsing the eight encoded INTEGER fields gives them back, in order.
pub proof fn lemma_parse_ints_of_der(ints: Seq<Seq<u8>>, rest: Seq<u8>)
    requires
        forall|i: int| 0 <= i < ints.len() ==> int_wf(#[trigger] ints[i]) && ints[i].len()
            <= usize::MAX,
    ensures
        parse_ints(concat_der(ints.map_values(|c: Seq<u8>| int_der(c))) + rest, ints.len())
            == Some((ints, rest)),
    decreases ints.len(),
{
    let parts = ints.map_values(|c: Seq<u8>| int_der(c));
    if ints.len() == 0 {
        assert(concat_der(parts) =~= Seq::<u8>::empty());
        assert(concat_der(parts) + rest =~= rest);
        assert(ints =~= Seq::<Seq<u8>>::empty());
    } else {
        let head = ints[0];
        let tail = ints.drop_first();
        assert(parts.first() == int_der(head));
        assert(parts.drop_first() =~= tail.map_values(|c: Seq<u8>| int_der(c)));
        let tail_enc = concat_der(tail.map_values(|c: Seq<u8>| int_der(c)));
        assert(concat_der(parts) + rest =~= int_der(head) + (tail_enc + rest));
        lemma_parse_int_of_der(head, tail_enc + rest);
        assert(forall|i: int| 0 <= i < tail.len() ==> int_wf(#[trigger] tail[i]) && tail[i].len()
            <= usize::MAX) by {
            assert(forall|i: int| 0 <= i < tail.len() ==> tail[i] == ints[i + 1]);
        }
        lemma_parse_ints_of_der(tail, rest);
        assert(seq![head] + tail =~= ints);
    }
}

/// The eight integer fields of a PKCS#1 key, in encoding order.
pub open spec fn pkcs1_ints(k: Pkcs1V) -> Seq<Seq<u8>> {
    seq![
        k.modulus,
        k.public_exponent,
        k.private_exponent,
        k.prime1,
        k.prime2,
        k.exponent1,
        k.exponent2,
        k.coefficient,
    ]
}

/// The encoded integer run of a PKCS#1 key, written out.
#[verifier::rlimit(100)]
#[verifier::spinoff_prover]
proof fn lemma_pkcs1_ipart(k: Pkcs1V)
    ensures
        concat_der(pkcs1_ints(k).map_values(|x: Seq<u8>| int_der(x))) == int_der(k.modulus)
            + int_der(k.public_exponent) + int_der(k.private_exponent) + int_der(k.prime1)
            + int_der(k.prime2) + int_der(k.exponent1) + int_der(k.exponent2) + int_der(
            k.coefficient,
        ),
{
    let parts = pkcs1_ints(k).map_values(|x: Seq<u8>| int_der(x));
    let p0 = seq![int_der(k.modulus)];
    assert(p0.drop_first() =~= Seq::<Seq<u8>>::empty());
    assert(concat_der(Seq::<Seq<u8>>::empty()) =~= Seq::<u8>::empty());
    assert(concat_der(p0) =~= int_der(k.modulus));
    let p1 = p0.push(int_der(k.public_exponent));
    lemma_concat_der_push(p0, int_der(k.public_exponent));
    let p2 = p1.push(int_der(k.private_exponent));
    lemma_concat_der_push(p1, int_der(k.private_exponent));
    let p3 = p2.push(int_der(k.prime1));
    lemma_concat_der_push(p2, int_der(k.prime1));
    let p4 = p3.push(int_der(k.prime2));
    lemma_concat_der_push(p3, int_der(k.prime2));
    let p5 = p4.push(int_der(k.exponent1));
    lemma_concat_der_push(p4, int_der(k.exponent1));
    let p6 = p5.push(int_der(k.exponent2));
    lemma_concat_der_push(p5, int_der(k.exponent2));
    let p7 = p6.push(int_der(k.coefficient));
    lemma_concat_der_push(p6, int_der(k.coefficient));
    assert(parts =~= p7);
}

/// The encoded optional extra-prime part of a PKCS#1 key.
pub open spec fn pkcs1_opart(k: Pkcs1V) -> Seq<u8> {
    match k.other_prime_infos {
        Some(s) => tlv(TAG_SEQUENCE, opis_content(s)),
        None => Seq::empty(),
    }
}

/// The version and integer run at the front of a PKCS#1 content encoding.
#[verifier::rlimit(100)]
#[verifier::spinoff_prover]
proof fn lemma_parse_pkcs1_fields_of(k: Pkcs1V)
    requires
        pkcs1_wf(k),
    ensures
        parse_version(pkcs1_content(k)) == Some(
            (k.version, concat_der(pkcs1_ints(k).map_values(|x: Seq<u8>| int_der(x))) + pkcs1_opart(k)),
        ),
        parse_ints(
            concat_der(pkcs1_ints(k).map_values(|x: Seq<u8>| int_der(x))) + pkcs1_opart(k),
            8,
        ) == Some((pkcs1_ints(k), pkcs1_opart(k))),
{
    let c = pkcs1_content(k);
    let vpart = version_der(k.version);
    let ints = pkcs1_ints(k);
    let ipart = concat_der(ints.map_values(|x: Seq<u8>| int_der(x)));
    let opart = pkcs1_opart(k);
    lemma_pkcs1_ipart(k);
    assert(c == vpart + (ipart + opart)) by {
        assert(vpart + (ipart + opart) =~= pkcs1_content(k));
    }
    lemma_parse_version_of_der(k.version, ipart + opart);
    assert(forall|i: int| 0 <= i < ints.len() ==> int_wf(#[trigger] ints[i]) && ints[i].len()
        <= usize::MAX) by {
        lemma_tlv_len(TAG_INTEGER, k.modulus);
        lemma_tlv_len(TAG_INTEGER, k.public_exponent);
        lemma_tlv_len(TAG_INTEGER, k.private_exponent);
        lemma_tlv_len(TAG_INTEGER, k.prime1);
        lemma_tlv_len(TAG_INTEGER, k.prime2);
        lemma_tlv_len(TAG_INTEGER, k.exponent1);
        lemma_tlv_len(TAG_INTEGER, k.exponent2);
        lemma_tlv_len(TAG_INTEGER, k.coefficient);
    }
    lemma_parse_ints_of_der(ints, opart);
}

/// Parsing the content of a well-formed PKCS#1 key gives the key back.
#[verifier::rlimit(100)]
#[verifier::spinoff_prover]
proof fn lemma_parse_pkcs1_content_of(k: Pkcs1V)
    requires
        pkcs1_wf(k),
    ensures
        parse_pkcs1_content(pkcs1_content(k)) == Some(k),
{
    let c = pkcs1_content(k);
    let ints = pkcs1_ints(k);
    let opart = pkcs1_opart(k);
    lemma_parse_pkcs1_fields_of(k);
    match k.other_prime_infos {
        Some(s) => {
            lemma_tlv_len(TAG_SEQUENCE, opis_content(s));
            lemma_parse_tlv_of_tlv(TAG_SEQUENCE, opis_content(s), Seq::empty());
            assert(tlv(TAG_SEQUENCE, opis_content(s)) + Seq::<u8>::empty() =~= opart);
            lemma_parse_opis_of_content(s);
            assert(pkcs1_of_fields(k.version, ints, Some(s)) == k);
        },
        None => {
            assert(opart.len() == 0);
            assert(pkcs1_of_fields(k.version, ints, None) == k);
        },
    }
}

/// Parsing the encoding of a well-formed PKCS#1 key gives the key back.
pub proof fn lemma_parse_pkcs1_of_der(k: Pkcs1V)
    requires
        pkcs1_wf(k),
    ensures
        parse_pkcs1(pkcs1_der(k)) == Some(k),
{
    let c = pkcs1_content(k);
    lemma_parse_tlv_of_tlv(TAG_SEQUENCE, c, Seq::empty());
    assert(tlv(TAG_SEQUENCE, c) + Seq::<u8>::empty() =~= pkcs1_der(k));
    lemma_parse_pkcs1_content_of(k);
}

/// Law: decoding is deterministic and side-effect-free — any two parses of
/// the same PKCS#8 bytes describe the same container.
pub proof fn lemma_pkcs8_decode_deterministic(s: Seq<u8>, a: Pkcs8V, b: Pkcs8V)
    requires
        parse_pkcs8(s) == Some(a),
        parse_pkcs8(s) == Some(b),
    ensures
        a == b,
{
}

} // verus!
