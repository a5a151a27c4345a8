//! Hexadecimal rendering of byte strings, as used by the digest layer.

use crate::text::{str_to_chars, string_from_chars};
use vstd::prelude::*;

verus! {

/// The lower-case hex character of a nibble.
pub open spec fn hex_char_of_nibble(n: int) -> char {
    if n == 0 {
        '0'
    } else if n == 1 {
        '1'
    } else if n == 2 {
        '2'
    } else if n == 3 {
        '3'
    } else if n == 4 {
        '4'
    } else if n == 5 {
        '5'
    } else if n == 6 {
        '6'
    } else if n == 7 {
        '7'
    } else if n == 8 {
        '8'
    } else if n == 9 {
        '9'
    } else if n == 10 {
        'a'
    } else if n == 11 {
        'b'
    } else if n == 12 {
        'c'
    } else if n == 13 {
        'd'
    } else if n == 14 {
        'e'
    } else {
        'f'
    }
}

/// The nibble of a hex character, either case, or -1 for anything else.
pub open spec fn nibble_of_hex_char(c: char) -> int {
    if c == '0' {
        0
    } else if c == '1' {
        1
    } else if c == '2' {
        2
    } else if c == '3' {
        3
    } else if c == '4' {
        4
    } else if c == '5' {
        5
    } else if c == '6' {
        6
    } else if c == '7' {
        7
    } else if c == '8' {
        8
    } else if c == '9' {
        9
    } else if c == 'a' || c == 'A' {
        10
    } else if c == 'b' || c == 'B' {
        11
    } else if c == 'c' || c == 'C' {
        12
    } else if c == 'd' || c == 'D' {
        13
    } else if c == 'e' || c == 'E' {
        14
    } else if c == 'f' || c == 'F' {
        15
    } else {
        -1
    }
}

/// The hex rendering of a byte string: two characters per byte, high nibble
/// first.
pub open spec fn hex_of(bytes: Seq<u8>) -> Seq<char> {
    Seq::new(
        bytes.len() * 2,
        |i: int|
            if i % 2 == 0 {
                hex_char_of_nibble(bytes[i / 2] as int / 16)
            } else {
                hex_char_of_nibble(bytes[i / 2] as int % 16)
            },
    )
}

/// The bytes of a hex string, or nothing if a character is out of the
/// alphabet or the length is odd.
pub open spec fn bytes_of_hex(s: Seq<char>) -> Option<Seq<u8>> {
    if s.len() % 2 == 0 && (forall|i: int| 0 <= i < s.len() ==> nibble_of_hex_char(s[i]) >= 0) {
        Some(
            Seq::new(
                s.len() / 2,
                |i: int| (nibble_of_hex_char(s[2 * i]) * 16 + nibble_of_hex_char(s[2 * i + 1])) as u8,
            ),
        )
    } else {
        None
    }
}

fn hex_char(n: u8) -> (c: char)
    requires
        n < 16,
    ensures
        c == hex_char_of_nibble(n as int),
{
    if n == 0 {
        '0'
    } else if n == 1 {
        '1'
    } else if n == 2 {
        '2'
    } else if n == 3 {
        '3'
    } else if n == 4 {
        '4'
    } else if n == 5 {
        '5'
    } else if n == 6 {
        '6'
    } else if n == 7 {
        '7'
    } else if n == 8 {
        '8'
    } else if n == 9 {
        '9'
    } else if n == 10 {
        'a'
    } else if n == 11 {
        'b'
    } else if n == 12 {
        'c'
    } else if n == 13 {
        'd'
    } else if n == 14 {
        'e'
    } else {
        'f'
    }
}

fn hex_nibble(c: char) -> (r: Option<u8>)
    ensures
        r is Some <==> nibble_of_hex_char(c) >= 0,
        r is Some ==> r->0 as int == nibble_of_hex_char(c),
{
    if c == '0' {
        Some(0)
    } else if c == '1' {
        Some(1)
    } else if c == '2' {
        Some(2)
    } else if c == '3' {
        Some(3)
    } else if c == '4' {
        Some(4)
    } else if c == '5' {
        Some(5)
    } else if c == '6' {
        Some(6)
    } else if c == '7' {
        Some(7)
    } else if c == '8' {
        Some(8)
    } else if c == '9' {
        Some(9)
    } else if c == 'a' || c == 'A' {
        Some(10)
    } else if c == 'b' || c == 'B' {
        Some(11)
    } else if c == 'c' || c == 'C' {
        Some(12)
    } else if c == 'd' || c == 'D' {
        Some(13)
    } else if c == 'e' || c == 'E' {
        Some(14)
    } else if c == 'f' || c == 'F' {
        Some(15)
    } else {
        None
    }
}

/// Render a byte string as lower-case hex.
pub fn encode_hex(bytes: &[u8]) -> (r: String)
    ensures
        r@ == hex_of(bytes@),
{
    let n = bytes.len();
    let mut out: Vec<char> = Vec::new();
    let mut i: usize = 0;
    while i < n
        invariant
            n == bytes@.len(),
            0 <= i <= n,
            out@ == hex_of(bytes@.take(i as int)),
        decreases n - i,
    {
        let b = bytes[i];
        let hi = hex_char(b / 16);
        let lo = hex_char(b % 16);
        out.push(hi);
        out.push(lo);
        proof {
            assert(hex_of(bytes@.take(i + 1)) =~= hex_of(bytes@.take(i as int)).push(hi).push(lo));
        }
        i = i + 1;
    }
    proof {
        assert(bytes@.take(n as int) =~= bytes@);
    }
    string_from_chars(out)
}

/// Parse a hex string back into bytes.
pub fn decode_hex(s: &str) -> (r: Option<Vec<u8>>)
    ensures
        match r {
            Some(v) => bytes_of_hex(s@) == Some(v@),
            None => bytes_of_hex(s@) is None,
        },
{
    let chars = str_to_chars(s);
    let n = chars.len();
    if n % 2 != 0 {
        return None;
    }
    let mut out: Vec<u8> = Vec::new();
    let mut i: usize = 0;
    while i < n
        invariant
            n == s@.len(),
            chars@ == s@,
            n % 2 == 0,
            0 <= i <= n,
            i % 2 == 0,
            forall|j: int| 0 <= j < i ==> nibble_of_hex_char(s@[j]) >= 0,
            out@.len() == i / 2,
            forall|k: int|
                0 <= k < i / 2 ==> out@[k] as int == nibble_of_hex_char(s@[2 * k]) * 16
                    + nibble_of_hex_char(s@[2 * k + 1]),
        decreases n - i,
    {
        let hi = match hex_nibble(chars[i]) {
            Some(v) => v,
            None => {
                return None;
            },
        };
        let lo = match hex_nibble(chars[i + 1]) {
            Some(v) => v,
            None => {
                return None;
            },
        };
        out.push(hi * 16 + lo);
        i = i + 2;
    }
    proof {
        let spec_bytes = bytes_of_hex(s@);
        assert(spec_bytes is Some);
        assert(out@ =~= spec_bytes->0);
    }
    Some(out)
}

/// Hex decoding undoes hex encoding exactly.
pub proof fn lemma_hex_round_trip(bytes: Seq<u8>)
    ensures
        bytes_of_hex(hex_of(bytes)) == Some(bytes),
{
    let h = hex_of(bytes);
    assert forall|i: int| 0 <= i < h.len() implies nibble_of_hex_char(h[i]) >= 0 by {
        assert(0 <= bytes[i / 2] / 16 < 16 && 0 <= bytes[i / 2] % 16 < 16);
    }
    let d = bytes_of_hex(h)->0;
    assert forall|k: int| 0 <= k < bytes.len() implies d[k] == bytes[k] by {
        assert(h[2 * k] == hex_char_of_nibble(bytes[k] as int / 16));
        assert(h[2 * k + 1] == hex_char_of_nibble(bytes[k] as int % 16));
        assert(nibble_of_hex_char(hex_char_of_nibble(bytes[k] as int / 16)) == bytes[k] as int / 16);
        assert(nibble_of_hex_char(hex_char_of_nibble(bytes[k] as int % 16)) == bytes[k] as int % 16);
    }
    assert(d =~= bytes);
}

} // verus!
