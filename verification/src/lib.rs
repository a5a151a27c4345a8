//! Network-parameterized Bitcoin address codec with a typed-digest layer.
//!
//! The crate converts spending scripts into address strings and back:
//! legacy pay-to-pubkey-hash and pay-to-script-hash outputs travel through a
//! base58check codec, segwit outputs through a bech32 codec.  Three network
//! parameter sets (mainnet, testnet, signet) select the version bytes and the
//! bech32 human-readable prefix.  A marked-digest layer wraps the hash
//! primitives in distinct fixed-length output types so digests of different
//! origin cannot be confused.

pub mod base58;
pub mod bech32;
pub mod enc;
pub mod errors;
pub mod hashes;
pub mod hex;
pub mod nums;
pub mod script;
pub mod text;
