//! The marked-digest layer: named hash algorithms wrapped in distinct
//! fixed-length output types, so digests of equal length but different
//! semantic origin cannot be substituted for one another.
//!
//! Three algorithms are provided: `hash256` (double-SHA256, the base58check
//! checksum digest), `hash160` (SHA256 then RIPEMD160, the legacy payload
//! digest) and `blake2b256` (a 256-bit BLAKE2b variant).  Each output type
//! supports a byte view, byte reversal, and hex rendering in both native and
//! reversed ("big-endian display") orientation.

use crate::hex::{bytes_of_hex, decode_hex, encode_hex, hex_of};
use vstd::prelude::*;

verus! {

/// The SHA256 digest of a byte string, named but not axiomatized: nothing is
/// assumed of it beyond its 32-byte length.
pub uninterp spec fn sha256_of(data: Seq<u8>) -> Seq<u8>;

/// The RIPEMD160 digest of a byte string.
pub uninterp spec fn ripemd160_of(data: Seq<u8>) -> Seq<u8>;

/// The 256-bit BLAKE2b digest of a byte string.
pub uninterp spec fn blake2b256_of(data: Seq<u8>) -> Seq<u8>;

/// Double-SHA256, the checksum digest of base58check.
pub open spec fn hash256_of(data: Seq<u8>) -> Seq<u8> {
    sha256_of(sha256_of(data))
}

/// SHA256 followed by RIPEMD160, the pubkey- and script-hash digest.
pub open spec fn hash160_of(data: Seq<u8>) -> Seq<u8> {
    ripemd160_of(sha256_of(data))
}

/// The four-byte base58check checksum: the first four bytes of the
/// double-SHA256 of the data.
pub open spec fn checksum_of(data: Seq<u8>) -> Seq<u8> {
    Seq::new(4, |i: int| hash256_of(data)[i])
}

/// Relies on `sha2::Sha256::digest`: a 32-byte digest depending on the input
/// bytes alone.
#[verifier::external_body]
fn sha256(data: &[u8]) -> (r: Vec<u8>)
    ensures
        r@ == sha256_of(data@),
        r@.len() == 32,
{
    <sha2::Sha256 as sha2::Digest>::digest(data).to_vec()
}

/// Relies on `ripemd160::Ripemd160::digest`: a 20-byte digest depending on
/// the input bytes alone.
#[verifier::external_body]
fn ripemd160(data: &[u8]) -> (r: Vec<u8>)
    ensures
        r@ == ripemd160_of(data@),
        r@.len() == 20,
{
    <ripemd160::Ripemd160 as ripemd160::Digest>::digest(data).to_vec()
}

/// Relies on `blake2::VarBlake2b` with a 32-byte output size: a 32-byte
/// digest depending on the input bytes alone.
#[verifier::external_body]
fn blake2b256(data: &[u8]) -> (r: Vec<u8>)
    ensures
        r@ == blake2b256_of(data@),
        r@.len() == 32,
{
    let mut hasher = <blake2::VarBlake2b as digest::VariableOutput>::new(32).expect(
        "32 is a valid blake2b size",
    );
    digest::Update::update(&mut hasher, data);
    let mut out: Vec<u8> = Vec::new();
    digest::VariableOutput::finalize_variable(hasher, |res| out.extend_from_slice(res));
    out
}

/// A fixed-length digest output marked with the algorithm that produced it.
pub trait MarkedDigestOutput: Sized {
    /// The digest bytes.
    spec fn bytes(&self) -> Seq<u8>;

    /// The fixed byte width of this digest kind.
    spec fn width() -> nat;

    /// Well-formed: the digest holds exactly `width` bytes.
    open spec fn wf(&self) -> bool {
        self.bytes().len() == Self::width()
    }

    /// The number of bytes in the digest.
    fn size(&self) -> (n: usize)
        requires
            self.wf(),
        ensures
            n as nat == Self::width(),
    ;

    /// A view of the digest bytes.
    fn as_slice(&self) -> (s: &[u8])
        ensures
            s@ == self.bytes(),
    ;

    /// A copy in the opposite byte order.
    fn reversed(&self) -> (r: Self)
        requires
            self.wf(),
        ensures
            r.wf(),
            r.bytes() == self.bytes().reverse(),
    ;

    /// Render in reversed byte order as hex ("big-endian display").
    fn to_be_hex(&self) -> (s: String)
        requires
            self.wf(),
        ensures
            s@ == hex_of(self.bytes().reverse()),
    ;

    /// Parse from reversed-byte-order hex: hex-decode, then reverse.
    fn from_be_hex(be: &str) -> (r: Option<Self>)
        ensures
            match r {
                Some(d) => {
                    &&& d.wf()
                    &&& bytes_of_hex(be@) matches Some(b) && b.len() == Self::width() && d.bytes()
                        == b.reverse()
                },
                None => !(bytes_of_hex(be@) matches Some(b) && b.len() == Self::width()),
            },
    ;
}

/// Reverse a byte vector.
fn reversed_bytes(data: &Vec<u8>) -> (r: Vec<u8>)
    ensures
        r@ == data@.reverse(),
{
    let n = data.len();
    let mut r: Vec<u8> = Vec::new();
    let mut i: usize = 0;
    while i < n
        invariant
            n == data@.len(),
            0 <= i <= n,
            r@.len() == i,
            forall|j: int| 0 <= j < i ==> r@[j] == data@[n - 1 - j],
        decreases n - i,
    {
        r.push(data[n - 1 - i]);
        i = i + 1;
    }
    proof {
        assert(r@ =~= data@.reverse());
    }
    r
}

/// A double-SHA256 digest output.
#[derive(Clone, Debug)]
pub struct Hash256Digest {
    data: Vec<u8>,
}

/// A SHA256-then-RIPEMD160 digest output.
#[derive(Clone, Debug)]
pub struct Hash160Digest {
    data: Vec<u8>,
}

/// A 256-bit BLAKE2b digest output.
#[derive(Clone, Debug)]
pub struct Blake2b256Digest {
    data: Vec<u8>,
}

impl MarkedDigestOutput for Hash256Digest {
    closed spec fn bytes(&self) -> Seq<u8> {
        self.data@
    }

    closed spec fn width() -> nat {
        32
    }

    fn size(&self) -> (n: usize) {
        self.data.len()
    }

    fn as_slice(&self) -> (s: &[u8]) {
        self.data.as_slice()
    }

    fn reversed(&self) -> (r: Self) {
        Hash256Digest { data: reversed_bytes(&self.data) }
    }

    fn to_be_hex(&self) -> (s: String) {
        encode_hex(reversed_bytes(&self.data).as_slice())
    }

    fn from_be_hex(be: &str) -> (r: Option<Self>) {
        match decode_hex(be) {
            Some(b) => {
                if b.len() == 32 {
                    Some(Hash256Digest { data: reversed_bytes(&b) })
                } else {
                    None
                }
            },
            None => None,
        }
    }
}

impl MarkedDigestOutput for Hash160Digest {
    closed spec fn bytes(&self) -> Seq<u8> {
        self.data@
    }

    closed spec fn width() -> nat {
        20
    }

    fn size(&self) -> (n: usize) {
        self.data.len()
    }

    fn as_slice(&self) -> (s: &[u8]) {
        self.data.as_slice()
    }

    fn reversed(&self) -> (r: Self) {
        Hash160Digest { data: reversed_bytes(&self.data) }
    }

    fn to_be_hex(&self) -> (s: String) {
        encode_hex(reversed_bytes(&self.data).as_slice())
    }

    fn from_be_hex(be: &str) -> (r: Option<Self>) {
        match decode_hex(be) {
            Some(b) => {
                if b.len() == 20 {
                    Some(Hash160Digest { data: reversed_bytes(&b) })
                } else {
                    None
                }
            },
            None => None,
        }
    }
}

impl MarkedDigestOutput for Blake2b256Digest {
    closed spec fn bytes(&self) -> Seq<u8> {
        self.data@
    }

    closed spec fn width() -> nat {
        32
    }

    fn size(&self) -> (n: usize) {
        self.data.len()
    }

    fn as_slice(&self) -> (s: &[u8]) {
        self.data.as_slice()
    }

    fn reversed(&self) -> (r: Self) {
        Blake2b256Digest { data: reversed_bytes(&self.data) }
    }

    fn to_be_hex(&self) -> (s: String) {
        encode_hex(reversed_bytes(&self.data).as_slice())
    }

    fn from_be_hex(be: &str) -> (r: Option<Self>) {
        match decode_hex(be) {
            Some(b) => {
                if b.len() == 32 {
                    Some(Blake2b256Digest { data: reversed_bytes(&b) })
                } else {
                    None
                }
            },
            None => None,
        }
    }
}

/// Double-SHA256 of the input, as a marked digest.
pub fn hash256(data: &[u8]) -> (d: Hash256Digest)
    ensures
        d.wf(),
        d.bytes() == hash256_of(data@),
{
    let first = sha256(data);
    let second = sha256(first.as_slice());
    Hash256Digest { data: second }
}

/// SHA256 then RIPEMD160 of the input, as a marked digest.
pub fn hash160(data: &[u8]) -> (d: Hash160Digest)
    ensures
        d.wf(),
        d.bytes() == hash160_of(data@),
{
    let first = sha256(data);
    let second = ripemd160(first.as_slice());
    Hash160Digest { data: second }
}

/// 256-bit BLAKE2b of the input, as a marked digest.
pub fn blake2b256_digest(data: &[u8]) -> (d: Blake2b256Digest)
    ensures
        d.wf(),
        d.bytes() == blake2b256_of(data@),
{
    Blake2b256Digest { data: blake2b256(data) }
}

/// The first four bytes of the double-SHA256 of the input: the base58check
/// checksum.
pub fn checksum4(data: &[u8]) -> (r: Vec<u8>)
    ensures
        r@ == checksum_of(data@),
        r@.len() == 4,
{
    let d = hash256(data);
    let s = d.as_slice();
    let mut r: Vec<u8> = Vec::new();
    r.push(s[0]);
    r.push(s[1]);
    r.push(s[2]);
    r.push(s[3]);
    proof {
        assert(r@ =~= checksum_of(data@));
    }
    r
}

/// Parsing big-endian hex undoes rendering to big-endian hex: the two
/// conversions are exact inverses on well-formed digests.
pub proof fn lemma_be_hex_round_trip(d: Hash256Digest, s: Seq<char>)
    requires
        d.wf(),
        s == hex_of(d.bytes().reverse()),
    ensures
        bytes_of_hex(s) matches Some(b) && b.len() == 32 && b.reverse() == d.bytes(),
{
    crate::hex::lemma_hex_round_trip(d.bytes().reverse());
    assert(d.bytes().reverse().reverse() =~= d.bytes());
}

} // verus!
