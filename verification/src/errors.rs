//! Error conditions surfaced by the address codecs.

use vstd::prelude::*;

verus! {

/// Everything that can go wrong while encoding or decoding an address.
///
/// The two user-visible conditions at the address boundary are
/// `UnknownScriptType` (the script or string matches no known template) and
/// `NullDataScript` (an OP_RETURN data carrier, which has no address form by
/// design).  The remaining variants are the distinguishable sub-conditions of
/// the two codecs, so a caller can tell malformed input apart from input that
/// merely belongs to a different network.
#[derive(Clone, Copy, Debug, PartialEq, Eq, Structural)]
pub enum EncodingError {
    /// The script or string does not match any known address template.
    UnknownScriptType,
    /// OP_RETURN outputs are unspendable data carriers and have no address.
    NullDataScript,
    /// A character outside the base58 alphabet.
    InvalidBase58Char,
    /// A base58check payload too short to hold a version byte and checksum.
    TooShortBase58,
    /// The leading version byte does not match the expected network version.
    WrongVersion,
    /// The trailing four base58check checksum bytes do not match.
    BadBase58Checksum,
    /// A bech32 string without the `1` separator.
    MissingSeparator,
    /// The human-readable prefix does not match the expected network prefix.
    WrongHrp,
    /// A character outside the bech32 charset in the data part.
    InvalidBech32Char,
    /// The bech32 polynomial checksum does not verify.
    BadBech32Checksum,
    /// Bech32 data whose 5-bit groups do not regroup cleanly into bytes.
    InvalidPadding,
    /// A bech32 data part too short, or a witness program of impossible size.
    InvalidLength,
    /// A witness version byte that cannot be carried in a 5-bit group.
    InvalidWitnessVersion,
}

} // verus!
