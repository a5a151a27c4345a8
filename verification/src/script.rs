//! Spending scripts and their classification into the standard templates.

use vstd::prelude::*;

verus! {

/// A pay-to-pubkey-hash template: `DUP HASH160 PUSH_20 <20 bytes> EQUALVERIFY
/// CHECKSIG`, 25 bytes.
pub open spec fn is_pkh(s: Seq<u8>) -> bool {
    s.len() == 25 && s[0] == 0x76 && s[1] == 0xa9 && s[2] == 0x14 && s[23] == 0x88 && s[24] == 0xac
}

/// The 20-byte hash inside a pay-to-pubkey-hash script.
pub open spec fn pkh_payload(s: Seq<u8>) -> Seq<u8> {
    s.subrange(3, 23)
}

/// A pay-to-script-hash template: `HASH160 PUSH_20 <20 bytes> EQUAL`,
/// 23 bytes.
pub open spec fn is_sh(s: Seq<u8>) -> bool {
    s.len() == 23 && s[0] == 0xa9 && s[1] == 0x14 && s[22] == 0x87
}

/// The 20-byte hash inside a pay-to-script-hash script.
pub open spec fn sh_payload(s: Seq<u8>) -> Seq<u8> {
    s.subrange(2, 22)
}

/// A version-0 witness pubkey-hash output: `OP_0 PUSH_20 <20 bytes>`.
pub open spec fn is_wpkh(s: Seq<u8>) -> bool {
    s.len() == 22 && s[0] == 0x00 && s[1] == 0x14
}

/// A version-0 witness script-hash output: `OP_0 PUSH_32 <32 bytes>`.
pub open spec fn is_wsh(s: Seq<u8>) -> bool {
    s.len() == 34 && s[0] == 0x00 && s[1] == 0x20
}

/// The witness program bytes after the version and push-length opcodes.
pub open spec fn witness_program(s: Seq<u8>) -> Seq<u8> {
    s.skip(2)
}

/// An OP_RETURN data carrier: anything opening with the OP_RETURN opcode.
pub open spec fn is_op_return(s: Seq<u8>) -> bool {
    s.len() >= 1 && s[0] == 0x6a
}

/// The data bytes after the OP_RETURN opcode.
pub open spec fn op_return_payload(s: Seq<u8>) -> Seq<u8> {
    s.skip(1)
}

/// A spending-condition script, held as the raw opcode bytes.
#[derive(Clone, Debug, PartialEq, Eq, Hash)]
pub struct ScriptPubkey {
    items: Vec<u8>,
}

impl View for ScriptPubkey {
    type V = Seq<u8>;

    closed spec fn view(&self) -> Seq<u8> {
        self.items@
    }
}

/// The classification of a script, with the extracted hash or witness
/// program.
#[derive(Clone, Debug, PartialEq, Eq)]
pub enum ScriptType {
    /// Legacy pay-to-pubkey-hash, with the 20-byte pubkey hash.
    Pkh(Vec<u8>),
    /// Legacy pay-to-script-hash, with the 20-byte script hash.
    Sh(Vec<u8>),
    /// Witness pay-to-pubkey-hash, with the 20-byte program.
    Wpkh(Vec<u8>),
    /// Witness pay-to-script-hash, with the 32-byte program.
    Wsh(Vec<u8>),
    /// An OP_RETURN data carrier, with the data bytes.
    OpReturn(Vec<u8>),
    /// Anything that matches no standard template.
    NonStandard,
}

impl ScriptPubkey {
    /// Wrap raw script bytes.
    pub fn new(items: Vec<u8>) -> (s: Self)
        ensures
            s@ == items@,
    {
        ScriptPubkey { items }
    }

    /// The raw script bytes.
    pub fn items(&self) -> (r: &Vec<u8>)
        ensures
            r@ == self@,
    {
        &self.items
    }

    /// Classify the script against the standard templates and extract its
    /// payload.
    pub fn standard_type(&self) -> (t: ScriptType)
        ensures
            is_pkh(self@) ==> (t matches ScriptType::Pkh(p) && p@ == pkh_payload(self@)),
            is_sh(self@) ==> (t matches ScriptType::Sh(p) && p@ == sh_payload(self@)),
            is_wpkh(self@) ==> (t matches ScriptType::Wpkh(p) && p@ == witness_program(self@)),
            is_wsh(self@) ==> (t matches ScriptType::Wsh(p) && p@ == witness_program(self@)),
            is_op_return(self@) ==> (t matches ScriptType::OpReturn(p) && p@ == op_return_payload(
                self@,
            )),
            !(is_pkh(self@) || is_sh(self@) || is_wpkh(self@) || is_wsh(self@) || is_op_return(
                self@,
            )) ==> t == ScriptType::NonStandard,
    {
        let n = self.items.len();
        if n == 25 && self.items[0] == 0x76 && self.items[1] == 0xa9 && self.items[2] == 0x14
            && self.items[23] == 0x88 && self.items[24] == 0xac {
            let p = vstd::slice::slice_to_vec(
                vstd::slice::slice_subrange(self.items.as_slice(), 3, 23),
            );
            ScriptType::Pkh(p)
        } else if n == 23 && self.items[0] == 0xa9 && self.items[1] == 0x14 && self.items[22]
            == 0x87 {
            let p = vstd::slice::slice_to_vec(
                vstd::slice::slice_subrange(self.items.as_slice(), 2, 22),
            );
            ScriptType::Sh(p)
        } else if n == 22 && self.items[0] == 0x00 && self.items[1] == 0x14 {
            let p = vstd::slice::slice_to_vec(
                vstd::slice::slice_subrange(self.items.as_slice(), 2, 22),
            );
            proof {
                assert(p@ =~= witness_program(self@));
            }
            ScriptType::Wpkh(p)
        } else if n == 34 && self.items[0] == 0x00 && self.items[1] == 0x20 {
            let p = vstd::slice::slice_to_vec(
                vstd::slice::slice_subrange(self.items.as_slice(), 2, 34),
            );
            proof {
                assert(p@ =~= witness_program(self@));
            }
            ScriptType::Wsh(p)
        } else if n >= 1 && self.items[0] == 0x6a {
            let p = vstd::slice::slice_to_vec(
                vstd::slice::slice_subrange(self.items.as_slice(), 1, n),
            );
            proof {
                assert(p@ =~= op_return_payload(self@));
            }
            ScriptType::OpReturn(p)
        } else {
            ScriptType::NonStandard
        }
    }
}

} // verus!
