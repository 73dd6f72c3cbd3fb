use vstd::prelude::*;

verus! {

/// Declaration of `base64::DecodeError`, the failure detail of the outside
/// base64 decoder; values of it are carried through opaquely.
#[verifier::external_type_specification]
#[verifier::external_body]
pub struct ExBase64DecodeError(base64::DecodeError);

/// Everything that can go wrong while loading or converting a private key.
#[derive(Debug)]
pub enum Error {
    /// The DER bytes do not parse as the requested container.
    DerDecode,
    /// A container could not be re-encoded.
    DerEncode,
    /// The armored body is not valid standard padded base64.
    Base64Decode(base64::DecodeError),
    /// A section was opened but never closed before the input ended.
    MissingSectionEnd { end_marker: Vec<u8> },
    /// A `BEGIN` line lacked a well-formed trailing `-----`.
    IllegalSectionStart { line: Vec<u8> },
    /// No recognized section was found in the input.
    NoItemsFound,
}

} // verus!
