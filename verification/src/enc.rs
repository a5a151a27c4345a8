//! Network-parameterized address encoding: scripts to address strings and
//! back, with the codec selected by the script template or address variant.

use crate::base58::{base58check_decode, base58check_of, decode_base58, encode_base58};
use crate::bech32::{bech32_decode, bech32_encode, decode_bech32, encode_bech32};
use crate::errors::EncodingError;
use crate::script::{
    is_op_return, is_pkh, is_sh, is_wpkh, is_wsh, pkh_payload, sh_payload, ScriptPubkey,
    ScriptType,
};
use crate::text::str_to_chars;
use vstd::prelude::*;

verus! {

/// The encoding parameters of a Bitcoin-like network: the bech32
/// human-readable prefix and the two legacy base58check version bytes.
pub struct NetworkParams {
    /// The bech32 human-readable prefix ("bc" on mainnet).
    pub hrp: String,
    /// The legacy pubkey-hash version byte (0x00 on mainnet).
    pub pkh_version: u8,
    /// The legacy script-hash version byte (0x05 on mainnet).
    pub sh_version: u8,
}

impl NetworkParams {
    /// Well-formed: a nonempty prefix of printable ASCII outside the data
    /// charset's separator.
    pub open spec fn wf(&self) -> bool {
        &&& self.hrp@.len() >= 1
        &&& forall|i: int|
            0 <= i < self.hrp@.len() ==> 33 <= (#[trigger] self.hrp@[i]) as u32 <= 126
                && self.hrp@[i] != '1'
    }
}

/// The Bitcoin mainnet parameter set.
pub struct Main;

impl Main {
    /// Mainnet: prefix "bc", pubkey-hash version 0x00, script-hash version
    /// 0x05.
    pub fn params() -> (p: NetworkParams)
        ensures
            p.wf(),
            p.hrp@ == "bc"@,
            p.pkh_version == 0x00,
            p.sh_version == 0x05,
    {
        proof {
            reveal_strlit("bc");
        }
        let p = NetworkParams { hrp: "bc".to_owned(), pkh_version: 0x00, sh_version: 0x05 };
        proof {
            assert(p.hrp@.len() == 2);
            assert(p.hrp@[0] == 'b' && p.hrp@[1] == 'c');
        }
        p
    }
}

/// The Bitcoin testnet parameter set.
pub struct Test;

impl Test {
    /// Testnet: prefix "tb", pubkey-hash version 0x6f, script-hash version
    /// 0xc4.
    pub fn params() -> (p: NetworkParams)
        ensures
            p.wf(),
            p.hrp@ == "tb"@,
            p.pkh_version == 0x6f,
            p.sh_version == 0xc4,
    {
        proof {
            reveal_strlit("tb");
        }
        let p = NetworkParams { hrp: "tb".to_owned(), pkh_version: 0x6f, sh_version: 0xc4 };
        proof {
            assert(p.hrp@.len() == 2);
            assert(p.hrp@[0] == 't' && p.hrp@[1] == 'b');
        }
        p
    }
}

/// The Bitcoin signet parameter set.
pub struct Sig;

impl Sig {
    /// Signet: prefix "sb", pubkey-hash version 0x7d, script-hash version
    /// 0x57.
    pub fn params() -> (p: NetworkParams)
        ensures
            p.wf(),
            p.hrp@ == "sb"@,
            p.pkh_version == 0x7d,
            p.sh_version == 0x57,
    {
        proof {
            reveal_strlit("sb");
        }
        let p = NetworkParams { hrp: "sb".to_owned(), pkh_version: 0x7d, sh_version: 0x57 };
        proof {
            assert(p.hrp@.len() == 2);
            assert(p.hrp@[0] == 's' && p.hrp@[1] == 'b');
        }
        p
    }
}

/// The variant of an address, without its text.
#[derive(Clone, Copy, Debug, PartialEq, Eq, Structural)]
pub enum AddressKind {
    /// Legacy pay-to-pubkey-hash.
    Pkh,
    /// Legacy pay-to-script-hash.
    Sh,
    /// Witness pay-to-pubkey-hash.
    Wpkh,
    /// Witness pay-to-script-hash.
    Wsh,
}

/// A validated address: one of four string-bearing variants.
///
/// Only the codec paths (`encode_address`, `string_to_address`) guarantee
/// that the stored string is a checksum-valid encoding under some network's
/// parameters; building a variant directly from an unchecked string is a
/// deliberate escape hatch and carries no such guarantee.
#[derive(Clone, Debug, PartialEq, Eq, Hash)]
pub enum Address {
    /// Legacy pay-to-pubkey-hash.
    Pkh(String),
    /// Legacy pay-to-script-hash.
    Sh(String),
    /// Witness pay-to-pubkey-hash.
    Wpkh(String),
    /// Witness pay-to-script-hash.
    Wsh(String),
}

impl Address {
    /// The variant of this address.
    pub open spec fn kind(&self) -> AddressKind {
        match self {
            Address::Pkh(_) => AddressKind::Pkh,
            Address::Sh(_) => AddressKind::Sh,
            Address::Wpkh(_) => AddressKind::Wpkh,
            Address::Wsh(_) => AddressKind::Wsh,
        }
    }

    /// The characters of the stored string.
    pub open spec fn text(&self) -> Seq<char> {
        match self {
            Address::Pkh(s) => s@,
            Address::Sh(s) => s@,
            Address::Wpkh(s) => s@,
            Address::Wsh(s) => s@,
        }
    }

    /// A clone of the string underlying the address.
    pub fn as_string(&self) -> (r: String)
        ensures
            r@ == self.text(),
    {
        match self {
            Address::Pkh(s) => s.clone(),
            Address::Sh(s) => s.clone(),
            Address::Wpkh(s) => s.clone(),
            Address::Wsh(s) => s.clone(),
        }
    }

    /// The address as an `addr(...)` output descriptor.
    pub fn to_descriptor(&self) -> (r: String)
        ensures
            r@ == "addr("@ + self.text() + ")"@,
    {
        let mut d = String::new();
        d.append("addr(");
        d.append(self.as_string().as_str());
        d.append(")");
        proof {
            assert(d@ =~= "addr("@ + self.text() + ")"@);
        }
        d
    }
}

/// What encoding a script: the address variant and its exact text, or the
/// error.
pub open spec fn encode_address_spec(p: NetworkParams, s: Seq<u8>) -> Result<
    (AddressKind, Seq<char>),
    EncodingError,
> {
    if is_pkh(s) {
        Result::Ok((AddressKind::Pkh, base58check_of(p.pkh_version, pkh_payload(s))))
    } else if is_sh(s) {
        Result::Ok((AddressKind::Sh, base58check_of(p.sh_version, sh_payload(s))))
    } else if is_wpkh(s) || is_wsh(s) {
        match bech32_encode(p.hrp@, s) {
            Result::Ok(t) => Result::Ok(
                (if is_wpkh(s) { AddressKind::Wpkh } else { AddressKind::Wsh }, t),
            ),
            Result::Err(e) => Result::Err(e),
        }
    } else if is_op_return(s) {
        Result::Err(EncodingError::NullDataScript)
    } else {
        Result::Err(EncodingError::UnknownScriptType)
    }
}

/// What decoding an address variant and text yields: the canonical script
/// template bytes, or the error.
pub open spec fn decode_address_spec(p: NetworkParams, kind: AddressKind, text: Seq<char>) -> Result<
    Seq<u8>,
    EncodingError,
> {
    match kind {
        AddressKind::Pkh => match base58check_decode(p.pkh_version, text) {
            Result::Ok(pl) => Result::Ok(seq![0x76u8, 0xa9u8, 0x14u8] + pl + seq![0x88u8, 0xacu8]),
            Result::Err(e) => Result::Err(e),
        },
        AddressKind::Sh => match base58check_decode(p.sh_version, text) {
            Result::Ok(pl) => Result::Ok(seq![0xa9u8, 0x14u8] + pl + seq![0x87u8]),
            Result::Err(e) => Result::Err(e),
        },
        AddressKind::Wpkh => bech32_decode(p.hrp@, text),
        AddressKind::Wsh => bech32_decode(p.hrp@, text),
    }
}

/// What wrapping a string yields: the variant under which the text parses,
/// or the error.  The prefix check comes first, deterministically, so bech32
/// text is never tried as base58; then the two legacy versions are tried in
/// order.
pub open spec fn string_to_address_spec(p: NetworkParams, s: Seq<char>) -> Result<
    AddressKind,
    EncodingError,
> {
    if s.len() >= p.hrp@.len() && s.take(p.hrp@.len() as int) == p.hrp@ {
        match bech32_decode(p.hrp@, s) {
            Result::Ok(b) => {
                if b.len() == 22 {
                    Result::Ok(AddressKind::Wpkh)
                } else if b.len() == 34 {
                    Result::Ok(AddressKind::Wsh)
                } else {
                    Result::Err(EncodingError::UnknownScriptType)
                }
            },
            Result::Err(e) => Result::Err(e),
        }
    } else if base58check_decode(p.pkh_version, s) is Ok {
        Result::Ok(AddressKind::Pkh)
    } else if base58check_decode(p.sh_version, s) is Ok {
        Result::Ok(AddressKind::Sh)
    } else {
        Result::Err(EncodingError::UnknownScriptType)
    }
}

/// Marks an encoder that converts between `ScriptPubkey` and `Address` with
/// `EncodingError` as its error.
pub trait BitcoinEncoderMarker {

}

/// The standard encoder for Bitcoin-like networks, a pure transformation
/// layer parameterized by one network's `NetworkParams`.
pub struct BitcoinEncoder {
    /// The network's encoding parameters.
    pub params: NetworkParams,
}

impl BitcoinEncoderMarker for BitcoinEncoder {

}

impl BitcoinEncoder {
    /// An encoder for the given network.
    pub fn new(params: NetworkParams) -> (e: Self)
        ensures
            e.params == params,
    {
        BitcoinEncoder { params }
    }

    /// Encode a script as an address: legacy templates through base58check
    /// with the matching version byte, witness templates through bech32 with
    /// the network prefix.  OP_RETURN scripts fail as data carriers; any
    /// other unrecognized script fails as unclassifiable.
    pub fn encode_address(&self, s: &ScriptPubkey) -> (r: Result<Address, EncodingError>)
        ensures
            match encode_address_spec(self.params, s@) {
                Result::Ok((k, t)) => (r matches Ok(a) && a.kind() == k && a.text() == t),
                Result::Err(e) => r == Err::<Address, EncodingError>(e),
            },
            is_op_return(s@) ==> r == Err::<Address, EncodingError>(EncodingError::NullDataScript),
            !(is_pkh(s@) || is_sh(s@) || is_wpkh(s@) || is_wsh(s@) || is_op_return(s@)) ==> r
                == Err::<Address, EncodingError>(EncodingError::UnknownScriptType),
    {
        match s.standard_type() {
            ScriptType::Pkh(payload) => Ok(
                Address::Pkh(encode_base58(self.params.pkh_version, payload.as_slice())),
            ),
            ScriptType::Sh(payload) => Ok(
                Address::Sh(encode_base58(self.params.sh_version, payload.as_slice())),
            ),
            ScriptType::Wpkh(_) => match encode_bech32(
                self.params.hrp.as_str(),
                s.items().as_slice(),
            ) {
                Ok(t) => Ok(Address::Wpkh(t)),
                Err(e) => Err(e),
            },
            ScriptType::Wsh(_) => match encode_bech32(
                self.params.hrp.as_str(),
                s.items().as_slice(),
            ) {
                Ok(t) => Ok(Address::Wsh(t)),
                Err(e) => Err(e),
            },
            ScriptType::OpReturn(_) => Err(EncodingError::NullDataScript),
            ScriptType::NonStandard => Err(EncodingError::UnknownScriptType),
        }
    }

    /// Decode an address back to its canonical script template: the 25-byte
    /// pubkey-hash or 23-byte script-hash template for legacy variants, the
    /// witness program bytes verbatim for witness variants.  Every decode
    /// failure propagates as its error.
    pub fn decode_address(&self, addr: &Address) -> (r: Result<ScriptPubkey, EncodingError>)
        ensures
            match decode_address_spec(self.params, addr.kind(), addr.text()) {
                Result::Ok(b) => (r matches Ok(sp) && sp@ == b),
                Result::Err(e) => r == Err::<ScriptPubkey, EncodingError>(e),
            },
    {
        match addr {
            Address::Pkh(text) => match decode_base58(self.params.pkh_version, text.as_str()) {
                Ok(pl) => {
                    let mut v: Vec<u8> = Vec::new();
                    v.push(0x76);
                    v.push(0xa9);
                    v.push(0x14);
                    v.extend_from_slice(pl.as_slice());
                    v.push(0x88);
                    v.push(0xac);
                    proof {
                        assert(v@ =~= seq![0x76u8, 0xa9u8, 0x14u8] + pl@ + seq![0x88u8, 0xacu8]);
                    }
                    Ok(ScriptPubkey::new(v))
                },
                Err(e) => Err(e),
            },
            Address::Sh(text) => match decode_base58(self.params.sh_version, text.as_str()) {
                Ok(pl) => {
                    let mut v: Vec<u8> = Vec::new();
                    v.push(0xa9);
                    v.push(0x14);
                    v.extend_from_slice(pl.as_slice());
                    v.push(0x87);
                    proof {
                        assert(v@ =~= seq![0xa9u8, 0x14u8] + pl@ + seq![0x87u8]);
                    }
                    Ok(ScriptPubkey::new(v))
                },
                Err(e) => Err(e),
            },
            Address::Wpkh(text) => match decode_bech32(self.params.hrp.as_str(), text.as_str()) {
                Ok(b) => Ok(ScriptPubkey::new(b)),
                Err(e) => Err(e),
            },
            Address::Wsh(text) => match decode_bech32(self.params.hrp.as_str(), text.as_str()) {
                Ok(b) => Ok(ScriptPubkey::new(b)),
                Err(e) => Err(e),
            },
        }
    }

    /// Wrap a string in the matching address variant, storing the text
    /// unchanged.  Text carrying the network prefix is dispatched to bech32
    /// before any base58 attempt; decoded witness data of any length other
    /// than a witness pubkey-hash or script-hash is unclassifiable.
    pub fn string_to_address(&self, string: &str) -> (r: Result<Address, EncodingError>)
        ensures
            match string_to_address_spec(self.params, string@) {
                Result::Ok(k) => (r matches Ok(a) && a.kind() == k && a.text() == string@),
                Result::Err(e) => r == Err::<Address, EncodingError>(e),
            },
    {
        let chars = str_to_chars(string);
        let hrp_chars = str_to_chars(self.params.hrp.as_str());
        let hn = hrp_chars.len();
        let mut starts = chars.len() >= hn;
        let mut i: usize = 0;
        while starts && i < hn
            invariant
                hn == hrp_chars@.len(),
                hrp_chars@ == self.params.hrp@,
                chars@ == string@,
                0 <= i <= hn,
                starts ==> chars@.len() >= hn && (forall|j: int|
                    0 <= j < i ==> string@[j] == self.params.hrp@[j]),
                !starts ==> !(string@.len() >= hn && string@.take(hn as int)
                    == self.params.hrp@),
            decreases hn - i,
        {
            if chars[i] != hrp_chars[i] {
                proof {
                    if string@.len() >= hn {
                        assert(string@.take(hn as int)[i as int] != self.params.hrp@[i as int]);
                    }
                }
                starts = false;
            }
            i = i + 1;
        }
        proof {
            if starts {
                assert(string@.take(hn as int) =~= self.params.hrp@);
            }
        }
        if starts {
            match decode_bech32(self.params.hrp.as_str(), string) {
                Ok(b) => {
                    if b.len() == 22 {
                        Ok(Address::Wpkh(string.to_owned()))
                    } else if b.len() == 34 {
                        Ok(Address::Wsh(string.to_owned()))
                    } else {
                        Err(EncodingError::UnknownScriptType)
                    }
                },
                Err(e) => Err(e),
            }
        } else {
            match decode_base58(self.params.pkh_version, string) {
                Ok(_) => Ok(Address::Pkh(string.to_owned())),
                Err(_) => match decode_base58(self.params.sh_version, string) {
                    Ok(_) => Ok(Address::Sh(string.to_owned())),
                    Err(_) => Err(EncodingError::UnknownScriptType),
                },
            }
        }
    }
}


/// Round trip: every script classified as a standard template encodes to an
/// address whose decoding reproduces the canonical template bytes exactly.
pub proof fn lemma_address_round_trip(p: NetworkParams, s: Seq<u8>)
    requires
        p.wf(),
        is_pkh(s) || is_sh(s) || is_wpkh(s) || is_wsh(s),
    ensures
        (encode_address_spec(p, s) matches Ok((k, t)) && decode_address_spec(p, k, t) == Ok::<
            Seq<u8>,
            EncodingError,
        >(s)),
{
    if is_pkh(s) {
        crate::base58::lemma_base58check_round_trip(p.pkh_version, pkh_payload(s));
        assert(seq![0x76u8, 0xa9u8, 0x14u8] + pkh_payload(s) + seq![0x88u8, 0xacu8] =~= s);
    } else if is_sh(s) {
        crate::base58::lemma_base58check_round_trip(p.sh_version, sh_payload(s));
        assert(seq![0xa9u8, 0x14u8] + sh_payload(s) + seq![0x87u8] =~= s);
    } else {
        crate::bech32::lemma_bech32_round_trip(p.hrp@, s);
    }
}

/// Cross-network isolation: an address produced under one network's
/// parameters fails to decode under another's whose prefix and version bytes
/// all differ.
pub proof fn lemma_cross_network(pa: NetworkParams, pb: NetworkParams, s: Seq<u8>)
    requires
        pa.wf(),
        pb.wf(),
        pa.pkh_version != pb.pkh_version,
        pa.sh_version != pb.sh_version,
        pa.hrp@ != pb.hrp@,
        is_pkh(s) || is_sh(s) || is_wpkh(s) || is_wsh(s),
    ensures
        (encode_address_spec(pa, s) matches Ok((k, t)) && decode_address_spec(pb, k, t) is Err),
{
    lemma_address_round_trip(pa, s);
    if is_pkh(s) {
        crate::base58::lemma_base58check_wrong_version(
            pa.pkh_version,
            pb.pkh_version,
            pkh_payload(s),
        );
    } else if is_sh(s) {
        crate::base58::lemma_base58check_wrong_version(
            pa.sh_version,
            pb.sh_version,
            sh_payload(s),
        );
    } else {
        crate::bech32::lemma_bech32_wrong_hrp(pa.hrp@, pb.hrp@, s);
    }
}

} // verus!
