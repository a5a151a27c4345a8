//! The bech32 codec (BIP173 family): a human-readable prefix, a `1`
//! separator, 5-bit data groups and a six-group polynomial checksum over the
//! fixed 32-symbol charset.

use crate::errors::EncodingError;
use crate::nums::{
    digits_bounded, digits_of, lemma_digits_unique_padded, lemma_place_value_take_succ,
    place_value, zero_pad, zeros,
};
use vstd::arithmetic::div_mod::{lemma_fundamental_div_mod, lemma_fundamental_div_mod_converse};
use vstd::arithmetic::power::pow;
use crate::nums::{lemma_digits_of_len_le, lemma_digits_of_shape, lemma_place_value_bound,
    lemma_place_value_of_digits, lemma_place_value_zero_pad};
use vstd::arithmetic::power2::{lemma2_to64, lemma_pow2_adds, pow2};
use vstd::prelude::*;

verus! {

/// The bech32 character of a 5-bit group value.
pub open spec fn b32_char_of_digit(d: int) -> char {
    if d == 0 {
        'q'
    } else if d == 1 {
        'p'
    } else if d == 2 {
        'z'
    } else if d == 3 {
        'r'
    } else if d == 4 {
        'y'
    } else if d == 5 {
        '9'
    } else if d == 6 {
        'x'
    } else if d == 7 {
        '8'
    } else if d == 8 {
        'g'
    } else if d == 9 {
        'f'
    } else if d == 10 {
        '2'
    } else if d == 11 {
        't'
    } else if d == 12 {
        'v'
    } else if d == 13 {
        'd'
    } else if d == 14 {
        'w'
    } else if d == 15 {
        '0'
    } else if d == 16 {
        's'
    } else if d == 17 {
        '3'
    } else if d == 18 {
        'j'
    } else if d == 19 {
        'n'
    } else if d == 20 {
        '5'
    } else if d == 21 {
        '4'
    } else if d == 22 {
        'k'
    } else if d == 23 {
        'h'
    } else if d == 24 {
        'c'
    } else if d == 25 {
        'e'
    } else if d == 26 {
        '6'
    } else if d == 27 {
        'm'
    } else if d == 28 {
        'u'
    } else if d == 29 {
        'a'
    } else if d == 30 {
        '7'
    } else {
        'l'
    }
}

/// The 5-bit group value of a bech32 character, or -1 for anything else.
pub open spec fn b32_digit_of_char(c: char) -> int {
    if c == 'q' {
        0
    } else if c == 'p' {
        1
    } else if c == 'z' {
        2
    } else if c == 'r' {
        3
    } else if c == 'y' {
        4
    } else if c == '9' {
        5
    } else if c == 'x' {
        6
    } else if c == '8' {
        7
    } else if c == 'g' {
        8
    } else if c == 'f' {
        9
    } else if c == '2' {
        10
    } else if c == 't' {
        11
    } else if c == 'v' {
        12
    } else if c == 'd' {
        13
    } else if c == 'w' {
        14
    } else if c == '0' {
        15
    } else if c == 's' {
        16
    } else if c == '3' {
        17
    } else if c == 'j' {
        18
    } else if c == 'n' {
        19
    } else if c == '5' {
        20
    } else if c == '4' {
        21
    } else if c == 'k' {
        22
    } else if c == 'h' {
        23
    } else if c == 'c' {
        24
    } else if c == 'e' {
        25
    } else if c == '6' {
        26
    } else if c == 'm' {
        27
    } else if c == 'u' {
        28
    } else if c == 'a' {
        29
    } else if c == '7' {
        30
    } else if c == 'l' {
        31
    } else {
        -1
    }
}

/// Every character of the string is in the bech32 charset.
pub open spec fn all_base32(s: Seq<char>) -> bool {
    forall|i: int| 0 <= i < s.len() ==> b32_digit_of_char(s[i]) >= 0
}

/// The group values of a bech32 data string.
pub open spec fn b32_digits_of_chars(s: Seq<char>) -> Seq<u8> {
    s.map_values(|c: char| b32_digit_of_char(c) as u8)
}

/// The characters of a group-value string.
pub open spec fn b32_chars_of_digits(d: Seq<u8>) -> Seq<char> {
    d.map_values(|x: u8| b32_char_of_digit(x as int))
}

/// One step of the BIP173 checksum polynomial.
pub open spec fn polymod_step(chk: u32, v: u8) -> u32 {
    let b = chk >> 25;
    let c0 = ((chk & 0x1ffffff) << 5) ^ (v as u32);
    let c1 = if b & 1 != 0 { c0 ^ 0x3b6a57b2 } else { c0 };
    let c2 = if (b >> 1) & 1 != 0 { c1 ^ 0x26508e6d } else { c1 };
    let c3 = if (b >> 2) & 1 != 0 { c2 ^ 0x1ea119fa } else { c2 };
    let c4 = if (b >> 3) & 1 != 0 { c3 ^ 0x3d4233dd } else { c3 };
    if (b >> 4) & 1 != 0 { c4 ^ 0x2a1462b3 } else { c4 }
}

/// The BIP173 checksum polynomial over a string of values, folded from the
/// left starting at 1.
pub open spec fn polymod(values: Seq<u8>) -> u32
    decreases values.len(),
{
    if values.len() == 0 {
        1
    } else {
        polymod_step(polymod(values.drop_last()), values.last())
    }
}

/// The prefix expansion fed into the checksum: the high bits of each prefix
/// character, a zero, then the low bits of each prefix character.
pub open spec fn hrp_expand(hrp: Seq<char>) -> Seq<u8> {
    Seq::new(
        2 * hrp.len() + 1,
        |i: int|
            if i < hrp.len() {
                ((hrp[i] as u32) >> 5) as u8
            } else if i == hrp.len() {
                0u8
            } else {
                ((hrp[i - hrp.len() - 1] as u32) & 31) as u8
            },
    )
}

/// The six checksum groups for a prefix and data string.
pub open spec fn bech32_checksum(hrp: Seq<char>, data: Seq<u8>) -> Seq<u8> {
    let pm = polymod(hrp_expand(hrp) + data + zeros(6)) ^ 1;
    seq![
        ((pm >> 25) & 31) as u8,
        ((pm >> 20) & 31) as u8,
        ((pm >> 15) & 31) as u8,
        ((pm >> 10) & 31) as u8,
        ((pm >> 5) & 31) as u8,
        (pm & 31) as u8,
    ]
}

/// Regroup bytes into 5-bit groups, padding the tail with zero bits: the
/// unique group string of the padded value.
pub open spec fn to_u5(bytes: Seq<u8>) -> Seq<u8> {
    let len5 = (8 * bytes.len() + 4) / 5;
    let pad = 5 * len5 - 8 * bytes.len();
    zero_pad(digits_of(32, place_value(256, bytes) * pow2(pad as nat)), len5)
}

/// Regroup 5-bit groups back into bytes; nothing if the leftover bits could
/// hold another group or are not all zero.
pub open spec fn from_u5(groups: Seq<u8>) -> Option<Seq<u8>> {
    let total = 5 * groups.len();
    let rem = total % 8;
    let v = place_value(32, groups);
    if rem >= 5 || v % pow2(rem) != 0 {
        None
    } else {
        Some(zero_pad(digits_of(256, v / pow2(rem)), total / 8))
    }
}

/// The bech32 rendering of a prefix and a group-value string.
pub open spec fn bech32_of(hrp: Seq<char>, data: Seq<u8>) -> Seq<char> {
    hrp + seq!['1'] + b32_chars_of_digits(data + bech32_checksum(hrp, data))
}

/// Bech32 encoding of witness script bytes: the first byte is the witness
/// version and becomes the first group, the second (the push length) is
/// dropped, and the program is regrouped into 5-bit groups.
pub open spec fn bech32_encode(hrp: Seq<char>, bytes: Seq<u8>) -> Result<Seq<char>, EncodingError> {
    if bytes.len() < 2 {
        Result::Err(EncodingError::InvalidLength)
    } else if bytes.first() >= 32 {
        Result::Err(EncodingError::InvalidWitnessVersion)
    } else {
        Result::Ok(bech32_of(hrp, seq![bytes.first()] + to_u5(bytes.skip(2))))
    }
}

/// The position of the last `1` separator, or -1 if there is none.
pub open spec fn last_separator(s: Seq<char>) -> int
    decreases s.len(),
{
    if s.len() == 0 {
        -1
    } else if s.last() == '1' {
        s.len() - 1
    } else {
        last_separator(s.drop_last())
    }
}

/// Bech32 decoding: split at the last separator, match the prefix, map the
/// data characters, re-verify the checksum unconditionally, and regroup.
/// The result is the witness version byte, the program length byte, and the
/// program bytes.
pub open spec fn bech32_decode(hrp: Seq<char>, s: Seq<char>) -> Result<Seq<u8>, EncodingError> {
    let sep = last_separator(s);
    if sep < 0 {
        Result::Err(EncodingError::MissingSeparator)
    } else if s.take(sep) != hrp {
        Result::Err(EncodingError::WrongHrp)
    } else if s.len() - sep - 1 < 6 {
        Result::Err(EncodingError::InvalidLength)
    } else if !all_base32(s.skip(sep + 1)) {
        Result::Err(EncodingError::InvalidBech32Char)
    } else {
        let vals = b32_digits_of_chars(s.skip(sep + 1));
        if polymod(hrp_expand(hrp) + vals) != 1 {
            Result::Err(EncodingError::BadBech32Checksum)
        } else if vals.len() == 6 {
            Result::Err(EncodingError::InvalidLength)
        } else {
            let payload = vals.take(vals.len() - 6);
            match from_u5(payload.drop_first()) {
                Option::None => Result::Err(EncodingError::InvalidPadding),
                Option::Some(prog) => {
                    if prog.len() > 255 {
                        Result::Err(EncodingError::InvalidLength)
                    } else {
                        Result::Ok(seq![payload.first(), prog.len() as u8] + prog)
                    }
                },
            }
        }
    }
}

fn b32_char(d: u8) -> (c: char)
    requires
        d < 32,
    ensures
        c == b32_char_of_digit(d as int),
{
    if d == 0 {
        'q'
    } else if d == 1 {
        'p'
    } else if d == 2 {
        'z'
    } else if d == 3 {
        'r'
    } else if d == 4 {
        'y'
    } else if d == 5 {
        '9'
    } else if d == 6 {
        'x'
    } else if d == 7 {
        '8'
    } else if d == 8 {
        'g'
    } else if d == 9 {
        'f'
    } else if d == 10 {
        '2'
    } else if d == 11 {
        't'
    } else if d == 12 {
        'v'
    } else if d == 13 {
        'd'
    } else if d == 14 {
        'w'
    } else if d == 15 {
        '0'
    } else if d == 16 {
        's'
    } else if d == 17 {
        '3'
    } else if d == 18 {
        'j'
    } else if d == 19 {
        'n'
    } else if d == 20 {
        '5'
    } else if d == 21 {
        '4'
    } else if d == 22 {
        'k'
    } else if d == 23 {
        'h'
    } else if d == 24 {
        'c'
    } else if d == 25 {
        'e'
    } else if d == 26 {
        '6'
    } else if d == 27 {
        'm'
    } else if d == 28 {
        'u'
    } else if d == 29 {
        'a'
    } else if d == 30 {
        '7'
    } else {
        'l'
    }
}

fn b32_digit(c: char) -> (r: Option<u8>)
    ensures
        r is Some <==> b32_digit_of_char(c) >= 0,
        r is Some ==> r->0 as int == b32_digit_of_char(c) && r->0 < 32,
{
    if c == 'q' {
        Some(0)
    } else if c == 'p' {
        Some(1)
    } else if c == 'z' {
        Some(2)
    } else if c == 'r' {
        Some(3)
    } else if c == 'y' {
        Some(4)
    } else if c == '9' {
        Some(5)
    } else if c == 'x' {
        Some(6)
    } else if c == '8' {
        Some(7)
    } else if c == 'g' {
        Some(8)
    } else if c == 'f' {
        Some(9)
    } else if c == '2' {
        Some(10)
    } else if c == 't' {
        Some(11)
    } else if c == 'v' {
        Some(12)
    } else if c == 'd' {
        Some(13)
    } else if c == 'w' {
        Some(14)
    } else if c == '0' {
        Some(15)
    } else if c == 's' {
        Some(16)
    } else if c == '3' {
        Some(17)
    } else if c == 'j' {
        Some(18)
    } else if c == 'n' {
        Some(19)
    } else if c == '5' {
        Some(20)
    } else if c == '4' {
        Some(21)
    } else if c == 'k' {
        Some(22)
    } else if c == 'h' {
        Some(23)
    } else if c == 'c' {
        Some(24)
    } else if c == 'e' {
        Some(25)
    } else if c == '6' {
        Some(26)
    } else if c == 'm' {
        Some(27)
    } else if c == 'u' {
        Some(28)
    } else if c == 'a' {
        Some(29)
    } else if c == '7' {
        Some(30)
    } else if c == 'l' {
        Some(31)
    } else {
        None
    }
}

/// Fold the checksum polynomial over a value string.
fn polymod_exec(values: &Vec<u8>) -> (r: u32)
    ensures
        r == polymod(values@),
{
    let n = values.len();
    let mut chk: u32 = 1;
    let mut i: usize = 0;
    while i < n
        invariant
            n == values@.len(),
            0 <= i <= n,
            chk == polymod(values@.take(i as int)),
        decreases n - i,
    {
        let v = values[i];
        let b = chk >> 25;
        let c0 = ((chk & 0x1ffffff) << 5) ^ (v as u32);
        let c1 = if b & 1 != 0 { c0 ^ 0x3b6a57b2 } else { c0 };
        let c2 = if (b >> 1) & 1 != 0 { c1 ^ 0x26508e6d } else { c1 };
        let c3 = if (b >> 2) & 1 != 0 { c2 ^ 0x1ea119fa } else { c2 };
        let c4 = if (b >> 3) & 1 != 0 { c3 ^ 0x3d4233dd } else { c3 };
        let c5 = if (b >> 4) & 1 != 0 { c4 ^ 0x2a1462b3 } else { c4 };
        proof {
            assert(values@.take(i + 1).drop_last() =~= values@.take(i as int));
            assert(values@.take(i + 1).last() == values@[i as int]);
            assert(c5 == polymod_step(chk, v));
        }
        chk = c5;
        i = i + 1;
    }
    proof {
        assert(values@.take(n as int) =~= values@);
    }
    chk
}


/// Regroup bytes into 5-bit groups with zero-bit padding.
fn to_u5_vec(bytes: &[u8]) -> (r: Vec<u8>)
    ensures
        r@ == to_u5(bytes@),
        digits_bounded(32, r@),
{
    let n = bytes.len();
    let mut out: Vec<u8> = Vec::new();
    let mut acc: u32 = 0;
    let mut bits: u32 = 0;
    let mut pw: u32 = 1;
    let mut i: usize = 0;
    proof {
        lemma2_to64();
        assert(bytes@.take(0) =~= Seq::<u8>::empty());
    }
    while i < n
        invariant
            n == bytes@.len(),
            0 <= i <= n,
            bits <= 4,
            pw == pow2(bits as nat),
            pw <= 16,
            acc < pw,
            digits_bounded(32, out@),
            5 * out@.len() + bits == 8 * i,
            place_value(32, out@) * pow2(bits as nat) + acc == place_value(
                256,
                bytes@.take(i as int),
            ),
        decreases n - i,
    {
        let byte = bytes[i];
        proof {
            lemma_place_value_take_succ(256, bytes@, i as int);
            lemma_pow2_adds(bits as nat, 8);
            lemma2_to64();
            let pv = place_value(32, out@);
            assert(pv * pow2((bits + 8) as nat) + (acc * 256 + byte as u32) == (pv * pow2(
                bits as nat,
            ) + acc) * 256 + byte as u32) by (nonlinear_arith)
                requires
                    pow2((bits + 8) as nat) == pow2(bits as nat) * pow2(8),
                    pow2(8) == 256,
            ;
        }
        acc = acc * 256 + byte as u32;
        bits = bits + 8;
        pw = pw * 256;
        proof {
            lemma_pow2_adds((bits - 8) as nat, 8);
        }
        while bits >= 5
            invariant
                n == bytes@.len(),
                0 <= i < n,
                bits <= 12,
                pw == pow2(bits as nat),
                pw <= 4096,
                acc < pw,
                digits_bounded(32, out@),
                5 * out@.len() + bits == 8 * (i + 1),
                place_value(32, out@) * pow2(bits as nat) + acc == place_value(
                    256,
                    bytes@.take(i as int + 1),
                ),
            decreases bits,
        {
            proof {
                lemma_pow2_adds((bits - 5) as nat, 5);
                lemma2_to64();
                vstd::arithmetic::power2::lemma_pow2_pos((bits - 5) as nat);
                assert(pw as int == 32 * (pow2((bits - 5) as nat) as int) + 0) by (nonlinear_arith)
                    requires
                        pw == pow2((bits - 5) as nat) * pow2(5),
                        pow2(5) == 32,
                ;
                lemma_fundamental_div_mod_converse(
                    pw as int,
                    32,
                    pow2((bits - 5) as nat) as int,
                    0,
                );
            }
            let shift = pw / 32;
            proof {
                assert(shift == pow2((bits - 5) as nat));
                lemma_fundamental_div_mod(acc as int, shift as int);
                vstd::arithmetic::div_mod::lemma_mod_bound(acc as int, shift as int);
                assert(acc / shift < 32) by (nonlinear_arith)
                    requires
                        shift >= 1,
                        acc < shift * 32,
                        acc as int == shift as int * (acc as int / shift as int) + acc as int
                            % shift as int,
                        acc as int % shift as int >= 0,
                ;
            }
            let g = acc / shift;
            let rem = acc % shift;
            proof {
                let pv = place_value(32, out@);
                assert(out@.push(g as u8).drop_last() =~= out@);
                assert((pv * 32 + g) * (shift as nat) + rem == pv * pow2(bits as nat) + acc)
                    by (nonlinear_arith)
                    requires
                        pow2(bits as nat) == shift as nat * 32,
                        acc as int == shift as int * (g as int) + rem as int,
                ;
                assert(pow2(bits as nat) == shift as nat * 32) by (nonlinear_arith)
                    requires
                        pow2(bits as nat) == pow2((bits - 5) as nat) * pow2(5),
                        pow2(5) == 32,
                        shift == pow2((bits - 5) as nat),
                ;
            }
            out.push(g as u8);
            acc = rem;
            pw = shift;
            bits = bits - 5;
        }
        i = i + 1;
    }
    proof {
        assert(bytes@.take(n as int) =~= bytes@);
        lemma2_to64();
    }
    let ghost v = place_value(256, bytes@);
    if bits > 0 {
        proof {
            lemma_pow2_adds(bits as nat, (5 - bits) as nat);
            vstd::arithmetic::power2::lemma_pow2_pos((5 - bits) as nat);
            assert(32 as int == pw as int * (pow2((5 - bits) as nat) as int) + 0)
                by (nonlinear_arith)
                requires
                    pow2(5nat) == pw as nat * pow2((5 - bits) as nat),
                    pow2(5nat) == 32,
            ;
            assert(32 as int == (pow2((5 - bits) as nat) as int) * (pw as int) + 0)
                by (nonlinear_arith)
                requires
                    32 as int == pw as int * (pow2((5 - bits) as nat) as int) + 0,
            ;
            lemma_fundamental_div_mod_converse(32, pw as int, pow2((5 - bits) as nat) as int, 0);
        }
        let factor = 32 / pw;
        proof {
            assert(factor == pow2((5 - bits) as nat));
            assert(acc * factor < 32) by (nonlinear_arith)
                requires
                    acc < pw,
                    pw as nat * (factor as nat) == 32,
                    factor >= 1,
            ;
            let pv = place_value(32, out@);
            assert(out@.push((acc * factor) as u8).drop_last() =~= out@);
            assert(pv * 32 + acc * factor == (pv * pow2(bits as nat) + acc) * (factor as nat))
                by (nonlinear_arith)
                requires
                    pow2(bits as nat) * (factor as nat) == 32,
            ;
            assert(pow2(bits as nat) * (factor as nat) == 32) by (nonlinear_arith)
                requires
                    pow2(5nat) == pow2(bits as nat) * (factor as nat),
                    pow2(5nat) == 32,
            ;
        }
        let g = acc * factor;
        out.push(g as u8);
        proof {
            assert(place_value(32, out@) == v * pow2((5 - bits) as nat));
        }
    } else {
        proof {
            assert(pow2(0) == 1);
            assert(place_value(32, out@) * 1 == place_value(32, out@)) by (nonlinear_arith);
            assert(place_value(32, out@) == v * pow2(0)) by (nonlinear_arith)
                requires
                    place_value(32, out@) == v,
                    pow2(0nat) == 1,
            ;
        }
    }
    proof {
        let L = out@.len() as int;
        let pad: int = if bits > 0 { 5 - bits } else { 0 };
        assert(5 * L == 8 * n + pad);
        assert(place_value(32, out@) == v * pow2(pad as nat));
        assert(8 * n + 4 == 5 * L + (4 - pad)) by (nonlinear_arith)
            requires
                5 * L == 8 * n + pad,
        ;
        lemma_fundamental_div_mod_converse(8 * n + 4, 5, L, 4 - pad);
        assert((8 * (bytes@.len() as int) + 4) / 5 == L);
        lemma_digits_unique_padded(32, out@, out@.len());
        assert(out@ == to_u5(bytes@));
    }
    out
}

/// Regroup 5-bit groups back into bytes, rejecting uncleanly padded input.
fn from_u5_vec(groups: &[u8]) -> (r: Option<Vec<u8>>)
    requires
        digits_bounded(32, groups@),
    ensures
        match r {
            Some(v) => from_u5(groups@) == Some(v@),
            None => from_u5(groups@) is None,
        },
{
    let n = groups.len();
    let mut out: Vec<u8> = Vec::new();
    let mut acc: u32 = 0;
    let mut bits: u32 = 0;
    let mut pw: u32 = 1;
    let mut i: usize = 0;
    proof {
        lemma2_to64();
        assert(groups@.take(0) =~= Seq::<u8>::empty());
    }
    while i < n
        invariant
            n == groups@.len(),
            digits_bounded(32, groups@),
            0 <= i <= n,
            bits <= 7,
            pw == pow2(bits as nat),
            pw <= 128,
            acc < pw,
            digits_bounded(256, out@),
            8 * out@.len() + bits == 5 * i,
            place_value(256, out@) * pow2(bits as nat) + acc == place_value(
                32,
                groups@.take(i as int),
            ),
        decreases n - i,
    {
        let g = groups[i];
        proof {
            assert(groups@[i as int] < 32);
            lemma_place_value_take_succ(32, groups@, i as int);
            lemma_pow2_adds(bits as nat, 5);
            lemma2_to64();
            let pv = place_value(256, out@);
            assert(pv * pow2((bits + 5) as nat) + (acc * 32 + g as u32) == (pv * pow2(
                bits as nat,
            ) + acc) * 32 + g as u32) by (nonlinear_arith)
                requires
                    pow2((bits + 5) as nat) == pow2(bits as nat) * pow2(5),
                    pow2(5) == 32,
            ;
        }
        acc = acc * 32 + g as u32;
        bits = bits + 5;
        pw = pw * 32;
        proof {
            lemma_pow2_adds((bits - 5) as nat, 5);
        }
        if bits >= 8 {
            proof {
                lemma_pow2_adds((bits - 8) as nat, 8);
                lemma2_to64();
                vstd::arithmetic::power2::lemma_pow2_pos((bits - 8) as nat);
                assert(pw as int == 256 * (pow2((bits - 8) as nat) as int) + 0)
                    by (nonlinear_arith)
                    requires
                        pw == pow2((bits - 8) as nat) * pow2(8),
                        pow2(8) == 256,
                ;
                lemma_fundamental_div_mod_converse(
                    pw as int,
                    256,
                    pow2((bits - 8) as nat) as int,
                    0,
                );
            }
            let shift = pw / 256;
            proof {
                assert(shift == pow2((bits - 8) as nat));
                lemma_fundamental_div_mod(acc as int, shift as int);
                vstd::arithmetic::div_mod::lemma_mod_bound(acc as int, shift as int);
                assert(acc / shift < 256) by (nonlinear_arith)
                    requires
                        shift >= 1,
                        acc < shift * 256,
                        acc as int == shift as int * (acc as int / shift as int) + acc as int
                            % shift as int,
                        acc as int % shift as int >= 0,
                ;
            }
            let b = acc / shift;
            let rem = acc % shift;
            proof {
                let pv = place_value(256, out@);
                assert(out@.push(b as u8).drop_last() =~= out@);
                assert(pow2(bits as nat) == shift as nat * 256) by (nonlinear_arith)
                    requires
                        pow2(bits as nat) == pow2((bits - 8) as nat) * pow2(8),
                        pow2(8) == 256,
                        shift == pow2((bits - 8) as nat),
                ;
                assert((pv * 256 + b) * (shift as nat) + rem == pv * pow2(bits as nat) + acc)
                    by (nonlinear_arith)
                    requires
                        pow2(bits as nat) == shift as nat * 256,
                        acc as int == shift as int * (b as int) + rem as int,
                ;
            }
            out.push(b as u8);
            acc = rem;
            pw = shift;
            bits = bits - 8;
        }
        i = i + 1;
    }
    proof {
        assert(groups@.take(n as int) =~= groups@);
        assert(8 * (out@.len() as int) + bits == 5 * n);
        lemma_fundamental_div_mod_converse(5 * n, 8, out@.len() as int, bits as int);
        assert((5 * (groups@.len() as int)) % 8 == bits as int);
        assert((5 * (groups@.len() as int)) / 8 == out@.len() as int);
    }
    if bits >= 5 {
        return None;
    }
    let ghost v = place_value(32, groups@);
    proof {
        lemma_fundamental_div_mod_converse(
            v as int,
            pow2(bits as nat) as int,
            place_value(256, out@) as int,
            acc as int,
        );
        assert(v % pow2(bits as nat) == acc as nat);
        assert(v / pow2(bits as nat) == place_value(256, out@));
    }
    if acc != 0 {
        return None;
    }
    proof {
        lemma_digits_unique_padded(256, out@, out@.len());
        assert(out@ == zero_pad(digits_of(256, v / pow2(bits as nat)), out@.len()));
        assert(from_u5(groups@) == Some(out@));
    }
    Some(out)
}


/// The checksum-polynomial expansion of a prefix.
fn hrp_expand_vec(hrp: &Vec<char>) -> (r: Vec<u8>)
    ensures
        r@ == hrp_expand(hrp@),
{
    let n = hrp.len();
    let mut r: Vec<u8> = Vec::new();
    let mut i: usize = 0;
    while i < n
        invariant
            n == hrp@.len(),
            0 <= i <= n,
            r@.len() == i,
            forall|j: int| 0 <= j < i ==> r@[j] == ((hrp@[j] as u32) >> 5) as u8,
        decreases n - i,
    {
        r.push(#[verifier::truncate] (((hrp[i] as u32) >> 5) as u8));
        i = i + 1;
    }
    r.push(0);
    let mut k: usize = 0;
    while k < n
        invariant
            n == hrp@.len(),
            0 <= k <= n,
            r@.len() == n + 1 + k,
            forall|j: int| 0 <= j < n ==> r@[j] == ((hrp@[j] as u32) >> 5) as u8,
            r@[n as int] == 0,
            forall|j: int| 0 <= j < k ==> r@[n + 1 + j] == ((hrp@[j] as u32) & 31) as u8,
        decreases n - k,
    {
        r.push(#[verifier::truncate] (((hrp[k] as u32) & 31) as u8));
        k = k + 1;
    }
    proof {
        assert(r@ =~= hrp_expand(hrp@));
    }
    r
}

/// Render witness script bytes (version, push length, program) as bech32
/// under the given prefix.
pub fn encode_bech32(hrp: &str, data: &[u8]) -> (r: Result<String, EncodingError>)
    ensures
        match r {
            Ok(s) => bech32_encode(hrp@, data@) == Ok::<Seq<char>, EncodingError>(s@),
            Err(e) => bech32_encode(hrp@, data@) == Err::<Seq<char>, EncodingError>(e),
        },
{
    if data.len() < 2 {
        return Err(EncodingError::InvalidLength);
    }
    let version = data[0];
    if version >= 32 {
        return Err(EncodingError::InvalidWitnessVersion);
    }
    let prog = vstd::slice::slice_subrange(data, 2, data.len());
    proof {
        assert(prog@ =~= data@.skip(2));
    }
    let tail5 = to_u5_vec(prog);
    let mut data5: Vec<u8> = Vec::new();
    data5.push(version);
    data5.extend_from_slice(tail5.as_slice());
    proof {
        assert(data5@ =~= seq![data@.first()] + to_u5(data@.skip(2)));
    }
    let hrp_chars = crate::text::str_to_chars(hrp);
    let expanded = hrp_expand_vec(&hrp_chars);
    let mut evec: Vec<u8> = Vec::new();
    evec.extend_from_slice(expanded.as_slice());
    evec.extend_from_slice(data5.as_slice());
    evec.push(0);
    evec.push(0);
    evec.push(0);
    evec.push(0);
    evec.push(0);
    evec.push(0);
    proof {
        assert(evec@ =~= hrp_expand(hrp@) + data5@ + zeros(6));
    }
    let pm = polymod_exec(&evec) ^ 1;
    let mut cs: Vec<u8> = Vec::new();
    cs.push(((pm >> 25) & 31) as u8);
    cs.push(((pm >> 20) & 31) as u8);
    cs.push(((pm >> 15) & 31) as u8);
    cs.push(((pm >> 10) & 31) as u8);
    cs.push(((pm >> 5) & 31) as u8);
    cs.push((pm & 31) as u8);
    proof {
        assert(cs@ =~= bech32_checksum(hrp@, data5@));
    }
    let mut payload: Vec<u8> = Vec::new();
    payload.extend_from_slice(data5.as_slice());
    payload.extend_from_slice(cs.as_slice());
    proof {
        assert(payload@ =~= data5@ + cs@);
        assert forall|j: int| 0 <= j < cs@.len() implies cs@[j] < 32 by {
            let x = pm;
            assert(((x >> 25) & 31) < 32 && ((x >> 20) & 31) < 32 && ((x >> 15) & 31) < 32 && ((x
                >> 10) & 31) < 32 && ((x >> 5) & 31) < 32 && (x & 31) < 32) by (bit_vector);
        }
    }
    let mut out: Vec<char> = Vec::new();
    let hn = hrp_chars.len();
    let mut i: usize = 0;
    while i < hn
        invariant
            hn == hrp_chars@.len(),
            hrp_chars@ == hrp@,
            0 <= i <= hn,
            out@ =~= hrp@.take(i as int),
        decreases hn - i,
    {
        out.push(hrp_chars[i]);
        proof {
            assert(out@ =~= hrp@.take(i + 1));
        }
        i = i + 1;
    }
    proof {
        assert(hrp@.take(hn as int) =~= hrp@);
    }
    out.push('1');
    let pn = payload.len();
    let mut k: usize = 0;
    while k < pn
        invariant
            pn == payload@.len(),
            digits_bounded(32, payload@),
            0 <= k <= pn,
            out@ =~= hrp@ + seq!['1'] + b32_chars_of_digits(payload@.take(k as int)),
        decreases pn - k,
    {
        let c = b32_char(payload[k]);
        out.push(c);
        proof {
            assert(b32_chars_of_digits(payload@.take(k + 1)) =~= b32_chars_of_digits(
                payload@.take(k as int),
            ).push(c));
            assert(out@ =~= hrp@ + seq!['1'] + b32_chars_of_digits(payload@.take(k + 1)));
        }
        k = k + 1;
    }
    proof {
        assert(payload@.take(pn as int) =~= payload@);
        assert(out@ =~= bech32_of(hrp@, data5@));
    }
    Ok(crate::text::string_from_chars(out))
}

/// Decode bech32 text against an expected prefix, re-verifying the checksum
/// unconditionally.
pub fn decode_bech32(hrp: &str, s: &str) -> (r: Result<Vec<u8>, EncodingError>)
    ensures
        match r {
            Ok(v) => bech32_decode(hrp@, s@) == Ok::<Seq<u8>, EncodingError>(v@),
            Err(e) => bech32_decode(hrp@, s@) == Err::<Seq<u8>, EncodingError>(e),
        },
{
    let chars = crate::text::str_to_chars(s);
    let n = chars.len();
    let mut sep: usize = 0;
    let mut found = false;
    let mut i: usize = 0;
    proof {
        assert(s@.take(0) =~= Seq::<char>::empty());
    }
    while i < n
        invariant
            n == s@.len(),
            chars@ == s@,
            0 <= i <= n,
            found ==> sep < i && last_separator(s@.take(i as int)) == sep,
            !found ==> last_separator(s@.take(i as int)) == -1,
        decreases n - i,
    {
        proof {
            assert(s@.take(i + 1).drop_last() =~= s@.take(i as int));
            assert(s@.take(i + 1).last() == s@[i as int]);
        }
        if chars[i] == '1' {
            sep = i;
            found = true;
        }
        i = i + 1;
    }
    proof {
        assert(s@.take(n as int) =~= s@);
    }
    if !found {
        return Err(EncodingError::MissingSeparator);
    }
    let hrp_chars = crate::text::str_to_chars(hrp);
    let hn = hrp_chars.len();
    if sep != hn {
        proof {
            assert(s@.take(sep as int).len() != hrp@.len());
        }
        return Err(EncodingError::WrongHrp);
    }
    let mut h: usize = 0;
    while h < hn
        invariant
            hn == hrp@.len(),
            hrp_chars@ == hrp@,
            chars@ == s@,
            sep == hn,
            sep < s@.len(),
            last_separator(s@) == sep,
            0 <= h <= hn,
            forall|j: int| 0 <= j < h ==> s@[j] == hrp@[j],
        decreases hn - h,
    {
        if chars[h] != hrp_chars[h] {
            proof {
                assert(s@.take(sep as int)[h as int] != hrp@[h as int]);
            }
            return Err(EncodingError::WrongHrp);
        }
        h = h + 1;
    }
    proof {
        assert(s@.take(sep as int) =~= hrp@);
    }
    if n - sep - 1 < 6 {
        return Err(EncodingError::InvalidLength);
    }
    let dlen = n - sep - 1;
    let ghost data_part = s@.skip(sep + 1);
    let mut vals: Vec<u8> = Vec::new();
    let mut j: usize = 0;
    while j < dlen
        invariant
            n == s@.len(),
            chars@ == s@,
            sep + 1 + dlen == n,
            dlen >= 6,
            last_separator(s@) == sep,
            s@.take(sep as int) == hrp@,
            data_part == s@.skip(sep + 1),
            0 <= j <= dlen,
            vals@.len() == j,
            forall|k: int| 0 <= k < j ==> b32_digit_of_char(data_part[k]) >= 0,
            forall|k: int|
                0 <= k < j ==> vals@[k] as int == b32_digit_of_char(data_part[k]) && vals@[k] < 32,
        decreases dlen - j,
    {
        match b32_digit(chars[sep + 1 + j]) {
            Some(d) => {
                proof {
                    assert(data_part[j as int] == s@[sep + 1 + j]);
                }
                vals.push(d);
            },
            None => {
                proof {
                    assert(data_part[j as int] == s@[sep + 1 + j]);
                    assert(!all_base32(data_part));
                }
                return Err(EncodingError::InvalidBech32Char);
            },
        }
        j = j + 1;
    }
    proof {
        assert(all_base32(data_part));
        assert(vals@ =~= b32_digits_of_chars(data_part));
    }
    let expanded = hrp_expand_vec(&hrp_chars);
    let mut evec: Vec<u8> = Vec::new();
    evec.extend_from_slice(expanded.as_slice());
    evec.extend_from_slice(vals.as_slice());
    proof {
        assert(evec@ =~= hrp_expand(hrp@) + vals@);
    }
    let pm = polymod_exec(&evec);
    if pm != 1 {
        return Err(EncodingError::BadBech32Checksum);
    }
    if vals.len() == 6 {
        return Err(EncodingError::InvalidLength);
    }
    let version = vals[0];
    let m = vals.len() - 6;
    let tail = vstd::slice::slice_subrange(vals.as_slice(), 1, m);
    let ghost payload = vals@.take(m as int);
    proof {
        assert(payload.first() == version);
        assert(tail@ =~= payload.drop_first());
        assert(digits_bounded(32, tail@));
    }
    match from_u5_vec(tail) {
        None => Err(EncodingError::InvalidPadding),
        Some(prog) => {
            if prog.len() > 255 {
                Err(EncodingError::InvalidLength)
            } else {
                let mut out: Vec<u8> = Vec::new();
                out.push(version);
                out.push(prog.len() as u8);
                out.extend_from_slice(prog.as_slice());
                proof {
                    assert(out@ =~= seq![payload.first(), prog@.len() as u8] + prog@);
                }
                Ok(out)
            }
        },
    }
}


/// The charset tables invert each other on group values; no group value maps
/// to the separator.
pub proof fn lemma_b32_table(d: int)
    requires
        0 <= d < 32,
    ensures
        b32_digit_of_char(b32_char_of_digit(d)) == d,
        b32_char_of_digit(d) != '1',
{
}

/// XOR of two values below 2^30 stays below 2^30.
proof fn lemma_xor_bound30(a: u32, b: u32)
    requires
        a < 0x40000000,
        b < 0x40000000,
    ensures
        (a ^ b) < 0x40000000,
{
    assert((a ^ b) < 0x40000000) by (bit_vector)
        requires
            a < 0x40000000,
            b < 0x40000000,
    ;
}

/// One polynomial step keeps the accumulator below 2^30.
proof fn lemma_polymod_step_range(chk: u32, v: u8)
    ensures
        polymod_step(chk, v) < 0x40000000,
{
    let b = chk >> 25;
    let c0 = ((chk & 0x1ffffff) << 5) ^ (v as u32);
    assert(c0 < 0x40000000) by (bit_vector)
        requires
            c0 == ((chk & 0x1ffffff) << 5) ^ (v as u32),
    ;
    let c1 = if b & 1 != 0 { c0 ^ 0x3b6a57b2 } else { c0 };
    lemma_xor_bound30(c0, 0x3b6a57b2);
    let c2 = if (b >> 1) & 1 != 0 { c1 ^ 0x26508e6d } else { c1 };
    lemma_xor_bound30(c1, 0x26508e6d);
    let c3 = if (b >> 2) & 1 != 0 { c2 ^ 0x1ea119fa } else { c2 };
    lemma_xor_bound30(c2, 0x1ea119fa);
    let c4 = if (b >> 3) & 1 != 0 { c3 ^ 0x3d4233dd } else { c3 };
    lemma_xor_bound30(c3, 0x3d4233dd);
    lemma_xor_bound30(c4, 0x2a1462b3);
}

/// The polynomial accumulator always stays below 2^30.
pub proof fn lemma_polymod_range(values: Seq<u8>)
    ensures
        polymod(values) < 0x40000000,
    decreases values.len(),
{
    if values.len() > 0 {
        lemma_polymod_range(values.drop_last());
        lemma_polymod_step_range(polymod(values.drop_last()), values.last());
    }
}

/// XOR reassociation: pulling one operand out past another.
proof fn lemma_xor_swap(x: u32, d: u32, g: u32)
    ensures
        (x ^ d) ^ g == (x ^ g) ^ d,
{
    assert((x ^ d) ^ g == (x ^ g) ^ d) by (bit_vector);
}

/// A polynomial step over an accumulator disturbed in its low 25 bits: the
/// disturbance shifts up and the fed value joins it, by linearity over GF(2).
proof fn lemma_polymod_step_xor(chk: u32, d: u32, e: u8)
    requires
        d < 0x2000000,
        e < 32,
    ensures
        polymod_step(chk ^ d, e) == polymod_step(chk, 0) ^ ((d << 5) ^ (e as u32)),
{
    let b1 = (chk ^ d) >> 25;
    let b2 = chk >> 25;
    assert(b1 == b2) by (bit_vector)
        requires
            d < 0x2000000,
            b1 == (chk ^ d) >> 25,
            b2 == chk >> 25,
    ;
    let dd = (d << 5) ^ (e as u32);
    let x1 = (((chk ^ d) & 0x1ffffff) << 5) ^ (e as u32);
    let x2 = ((chk & 0x1ffffff) << 5) ^ (0u8 as u32);
    assert(x1 == x2 ^ ((d << 5) ^ (e as u32))) by (bit_vector)
        requires
            d < 0x2000000,
            x1 == (((chk ^ d) & 0x1ffffff) << 5) ^ (e as u32),
            x2 == ((chk & 0x1ffffff) << 5) ^ (0u8 as u32),
    ;
    let y1 = if b1 & 1 != 0 { x1 ^ 0x3b6a57b2 } else { x1 };
    let y2 = if b2 & 1 != 0 { x2 ^ 0x3b6a57b2 } else { x2 };
    lemma_xor_swap(x2, dd, 0x3b6a57b2);
    assert(y1 == y2 ^ dd);
    let z1 = if (b1 >> 1) & 1 != 0 { y1 ^ 0x26508e6d } else { y1 };
    let z2 = if (b2 >> 1) & 1 != 0 { y2 ^ 0x26508e6d } else { y2 };
    lemma_xor_swap(y2, dd, 0x26508e6d);
    assert(z1 == z2 ^ dd);
    let w1 = if (b1 >> 2) & 1 != 0 { z1 ^ 0x1ea119fa } else { z1 };
    let w2 = if (b2 >> 2) & 1 != 0 { z2 ^ 0x1ea119fa } else { z2 };
    lemma_xor_swap(z2, dd, 0x1ea119fa);
    assert(w1 == w2 ^ dd);
    let u1 = if (b1 >> 3) & 1 != 0 { w1 ^ 0x3d4233dd } else { w1 };
    let u2 = if (b2 >> 3) & 1 != 0 { w2 ^ 0x3d4233dd } else { w2 };
    lemma_xor_swap(w2, dd, 0x3d4233dd);
    assert(u1 == u2 ^ dd);
    lemma_xor_swap(u2, dd, 0x2a1462b3);
    assert(polymod_step(chk ^ d, e) == if (b1 >> 4) & 1 != 0 { u1 ^ 0x2a1462b3 } else { u1 });
    assert(polymod_step(chk, 0) == if (b2 >> 4) & 1 != 0 { u2 ^ 0x2a1462b3 } else { u2 });
}

/// Appending the checksum to the data it was computed over closes the
/// polynomial at exactly 1.
pub proof fn lemma_checksum_polymod(hrp: Seq<char>, data: Seq<u8>)
    requires
        digits_bounded(32, data),
    ensures
        polymod(hrp_expand(hrp) + (data + bech32_checksum(hrp, data))) == 1,
{
    let s = hrp_expand(hrp) + data;
    let cs = bech32_checksum(hrp, data);
    lemma_polymod_range(s + zeros(6));
    let pm0 = polymod(s + zeros(6));
    let pm = pm0 ^ 1;
    assert(pm < 0x40000000) by (bit_vector)
        requires
            pm0 < 0x40000000,
            pm == pm0 ^ 1,
    ;
    let c0 = (pm >> 25) & 31;
    let c1 = (pm >> 20) & 31;
    let c2 = (pm >> 15) & 31;
    let c3 = (pm >> 10) & 31;
    let c4 = (pm >> 5) & 31;
    let c5 = pm & 31;
    assert(c0 < 32 && c1 < 32 && c2 < 32 && c3 < 32 && c4 < 32 && c5 < 32) by (bit_vector)
        requires
            c0 == (pm >> 25) & 31,
            c1 == (pm >> 20) & 31,
            c2 == (pm >> 15) & 31,
            c3 == (pm >> 10) & 31,
            c4 == (pm >> 5) & 31,
            c5 == pm & 31,
    ;
    assert(cs =~= seq![c0 as u8, c1 as u8, c2 as u8, c3 as u8, c4 as u8, c5 as u8]);
    // the running differences between the checksum fold and the zero fold
    let d0 = 0u32;
    let d1 = (d0 << 5) ^ c0;
    let d2 = (d1 << 5) ^ c1;
    let d3 = (d2 << 5) ^ c2;
    let d4 = (d3 << 5) ^ c3;
    let d5 = (d4 << 5) ^ c4;
    let d6 = (d5 << 5) ^ c5;
    assert(d1 < 0x20 && d2 < 0x400 && d3 < 0x8000 && d4 < 0x100000 && d5 < 0x2000000)
        by (bit_vector)
        requires
            c0 < 32 && c1 < 32 && c2 < 32 && c3 < 32 && c4 < 32,
            d1 == (0u32 << 5) ^ c0,
            d2 == (d1 << 5) ^ c1,
            d3 == (d2 << 5) ^ c2,
            d4 == (d3 << 5) ^ c3,
            d5 == (d4 << 5) ^ c4,
    ;
    assert(d6 == pm) by (bit_vector)
        requires
            pm < 0x40000000,
            c0 == (pm >> 25) & 31,
            c1 == (pm >> 20) & 31,
            c2 == (pm >> 15) & 31,
            c3 == (pm >> 10) & 31,
            c4 == (pm >> 5) & 31,
            c5 == pm & 31,
            d1 == (0u32 << 5) ^ c0,
            d2 == (d1 << 5) ^ c1,
            d3 == (d2 << 5) ^ c2,
            d4 == (d3 << 5) ^ c3,
            d5 == (d4 << 5) ^ c4,
            d6 == (d5 << 5) ^ c5,
    ;
    // fold both sides step by step over the six groups
    assert(s + cs.take(0) =~= s);
    assert(s + zeros(0) =~= s);
    assert((s + zeros(1)).drop_last() =~= s + zeros(0) && (s + zeros(1)).last() == 0);
    assert((s + zeros(2)).drop_last() =~= s + zeros(1) && (s + zeros(2)).last() == 0);
    assert((s + zeros(3)).drop_last() =~= s + zeros(2) && (s + zeros(3)).last() == 0);
    assert((s + zeros(4)).drop_last() =~= s + zeros(3) && (s + zeros(4)).last() == 0);
    assert((s + zeros(5)).drop_last() =~= s + zeros(4) && (s + zeros(5)).last() == 0);
    assert((s + zeros(6)).drop_last() =~= s + zeros(5) && (s + zeros(6)).last() == 0);
    assert((s + cs.take(1)).drop_last() =~= s + cs.take(0) && (s + cs.take(1)).last() == cs[0]);
    assert((s + cs.take(2)).drop_last() =~= s + cs.take(1) && (s + cs.take(2)).last() == cs[1]);
    assert((s + cs.take(3)).drop_last() =~= s + cs.take(2) && (s + cs.take(3)).last() == cs[2]);
    assert((s + cs.take(4)).drop_last() =~= s + cs.take(3) && (s + cs.take(4)).last() == cs[3]);
    assert((s + cs.take(5)).drop_last() =~= s + cs.take(4) && (s + cs.take(5)).last() == cs[4]);
    assert((s + cs.take(6)).drop_last() =~= s + cs.take(5) && (s + cs.take(6)).last() == cs[5]);
    let p0 = polymod(s + zeros(0));
    let p1 = polymod(s + zeros(1));
    let p2 = polymod(s + zeros(2));
    let p3 = polymod(s + zeros(3));
    let p4 = polymod(s + zeros(4));
    let p5 = polymod(s + zeros(5));
    let p6 = polymod(s + zeros(6));
    let q0 = polymod(s + cs.take(0));
    let q1 = polymod(s + cs.take(1));
    let q2 = polymod(s + cs.take(2));
    let q3 = polymod(s + cs.take(3));
    let q4 = polymod(s + cs.take(4));
    let q5 = polymod(s + cs.take(5));
    let q6 = polymod(s + cs.take(6));
    assert(p1 == polymod_step(p0, 0) && q1 == polymod_step(q0, cs[0] as u8));
    assert(p2 == polymod_step(p1, 0) && q2 == polymod_step(q1, cs[1] as u8));
    assert(p3 == polymod_step(p2, 0) && q3 == polymod_step(q2, cs[2] as u8));
    assert(p4 == polymod_step(p3, 0) && q4 == polymod_step(q3, cs[3] as u8));
    assert(p5 == polymod_step(p4, 0) && q5 == polymod_step(q4, cs[4] as u8));
    assert(p6 == polymod_step(p5, 0) && q6 == polymod_step(q5, cs[5] as u8));
    assert(q0 == p0);
    assert(p0 ^ d0 == p0) by (bit_vector)
        requires
            d0 == 0u32,
    ;
    lemma_polymod_step_xor(p0, d0, c0 as u8);
    assert(q1 == p1 ^ d1);
    lemma_polymod_step_xor(p1, d1, c1 as u8);
    assert(q2 == p2 ^ d2);
    lemma_polymod_step_xor(p2, d2, c2 as u8);
    assert(q3 == p3 ^ d3);
    lemma_polymod_step_xor(p3, d3, c3 as u8);
    assert(q4 == p4 ^ d4);
    lemma_polymod_step_xor(p4, d4, c4 as u8);
    assert(q5 == p5 ^ d5);
    lemma_polymod_step_xor(p5, d5, c5 as u8);
    assert(q6 == p6 ^ d6);
    assert(cs.take(6) =~= cs);
    assert(s + cs.take(6) =~= s + cs);
    assert(hrp_expand(hrp) + (data + cs) =~= s + cs);
    assert(p6 ^ (p6 ^ 1) == 1) by (bit_vector);
    assert(q6 == 1) by (bit_vector)
        requires
            q6 == p6 ^ d6,
            d6 == pm,
            pm == p6 ^ 1,
    ;
}

/// The last separator of a string is the marked position when everything
/// after it avoids the separator character.
pub proof fn lemma_last_separator_at(s: Seq<char>, i: int)
    requires
        0 <= i < s.len(),
        s[i] == '1',
        forall|j: int| i < j < s.len() ==> s[j] != '1',
    ensures
        last_separator(s) == i,
    decreases s.len(),
{
    if i == s.len() - 1 {
    } else {
        assert(s.last() != '1');
        assert forall|j: int| i < j < s.drop_last().len() implies s.drop_last()[j] != '1' by {
            assert(s.drop_last()[j] == s[j]);
        }
        lemma_last_separator_at(s.drop_last(), i);
    }
}



/// The regrouped value fits in the computed number of groups.
proof fn lemma_to_u5_shape(prog: Seq<u8>)
    ensures
        ({
            let len5 = (8 * prog.len() + 4) / 5;
            let pad = 5 * len5 - 8 * prog.len();
            &&& 0 <= pad <= 4
            &&& place_value(256, prog) * pow2(pad as nat) < pow(32, len5)
            &&& digits_of(32, place_value(256, prog) * pow2(pad as nat)).len() <= len5
        }),
{
    let n = prog.len();
    lemma_fundamental_div_mod(8 * n as int + 4, 5);
    vstd::arithmetic::div_mod::lemma_mod_bound(8 * n as int + 4, 5);
    let len5 = (8 * n + 4) / 5;
    let pad = 5 * len5 - 8 * n;
    let v0 = place_value(256, prog);
    let v = v0 * pow2(pad as nat);
    lemma_place_value_bound(256, prog);
    assert(v < pow2((8 * n + pad) as nat)) by {
        vstd::arithmetic::power::lemma_pow_multiplies(2, 8, n);
        vstd::arithmetic::power2::lemma_pow2(8nat);
        vstd::arithmetic::power2::lemma_pow2((8 * n) as nat);
        vstd::arithmetic::power2::lemma_pow2(pad as nat);
        vstd::arithmetic::power2::lemma_pow2((8 * n + pad) as nat);
        lemma2_to64();
        assert(pow(2, (8 * n) as nat) == pow(pow(2, 8nat), n));
        assert(pow(2, 8nat) == 256) by {
            vstd::arithmetic::power2::lemma_pow2(8nat);
        }
        vstd::arithmetic::power2::lemma_pow2_adds((8 * n) as nat, pad as nat);
        vstd::arithmetic::power2::lemma_pow2_pos(pad as nat);
        assert(v0 * pow2(pad as nat) < pow2((8 * n) as nat) * pow2(pad as nat))
            by (nonlinear_arith)
            requires
                v0 < pow2((8 * n) as nat),
                pow2(pad as nat) >= 1,
        ;
    }
    assert(v < pow(32, len5)) by {
        vstd::arithmetic::power::lemma_pow_multiplies(2, 5, len5);
        vstd::arithmetic::power2::lemma_pow2(5nat);
        vstd::arithmetic::power2::lemma_pow2((5 * len5) as nat);
        lemma2_to64();
        assert(pow(2, (5 * len5) as nat) == pow(pow(2, 5nat), len5));
        assert(pow(2, 5nat) == 32);
        assert(pow2((8 * n + pad) as nat) == pow2((5 * len5) as nat));
    }
    lemma_digits_of_len_le(32, v, len5);
}

/// Every 5-bit group produced by regrouping is below 32.
pub proof fn lemma_to_u5_bounded(prog: Seq<u8>)
    ensures
        digits_bounded(32, to_u5(prog)),
{
    let len5 = (8 * prog.len() + 4) / 5;
    let v = place_value(256, prog) * pow2((5 * len5 - 8 * prog.len()) as nat);
    lemma_to_u5_shape(prog);
    lemma_digits_of_shape(32, v);
    let d = digits_of(32, v);
    assert forall|i: int| 0 <= i < to_u5(prog).len() implies to_u5(prog)[i] < 32 by {
        if i >= len5 - d.len() {
            assert(to_u5(prog)[i] == d[i - (len5 - d.len())]);
        } else {
            assert(to_u5(prog)[i] == 0);
        }
    }
}

/// Every checksum group is below 32.
pub proof fn lemma_checksum_bounded(hrp: Seq<char>, data: Seq<u8>)
    ensures
        digits_bounded(32, bech32_checksum(hrp, data)),
        bech32_checksum(hrp, data).len() == 6,
{
    let pm = polymod(hrp_expand(hrp) + data + zeros(6)) ^ 1;
    assert(((pm >> 25) & 31) < 32 && ((pm >> 20) & 31) < 32 && ((pm >> 15) & 31) < 32 && ((pm
        >> 10) & 31) < 32 && ((pm >> 5) & 31) < 32 && (pm & 31) < 32) by (bit_vector);
    assert forall|i: int| 0 <= i < bech32_checksum(hrp, data).len() implies bech32_checksum(
        hrp,
        data,
    )[i] < 32 by {}
}

/// The separator of a rendering sits right after the prefix, which is
/// recovered exactly.
pub proof fn lemma_bech32_of_separator(hrp: Seq<char>, data: Seq<u8>)
    requires
        hrp.len() >= 1,
        forall|i: int| 0 <= i < hrp.len() ==> hrp[i] != '1',
        digits_bounded(32, data),
    ensures
        last_separator(bech32_of(hrp, data)) == hrp.len(),
        bech32_of(hrp, data).take(hrp.len() as int) == hrp,
{
    let cs = bech32_checksum(hrp, data);
    lemma_checksum_bounded(hrp, data);
    let payload5 = data + cs;
    let t = bech32_of(hrp, data);
    let sep = hrp.len() as int;
    assert(t =~= hrp + seq!['1'] + b32_chars_of_digits(payload5));
    assert(t[sep] == '1');
    assert forall|j: int| sep < j < t.len() implies t[j] != '1' by {
        let k = j - sep - 1;
        assert(t[j] == b32_char_of_digit(payload5[k] as int));
        lemma_b32_table(payload5[k] as int);
    }
    lemma_last_separator_at(t, sep);
    assert(t.take(sep) =~= hrp);
}

/// A bech32 string made under one prefix never decodes under a different
/// one: the prefix check fails.
pub proof fn lemma_bech32_wrong_hrp(made: Seq<char>, tried: Seq<char>, bytes: Seq<u8>)
    requires
        made.len() >= 1,
        forall|i: int| 0 <= i < made.len() ==> made[i] != '1',
        made != tried,
        bytes.len() >= 2,
        bytes.first() < 32,
    ensures
        (bech32_encode(made, bytes) matches Ok(t) && bech32_decode(tried, t) == Err::<
            Seq<u8>,
            EncodingError,
        >(EncodingError::WrongHrp)),
{
    let data5 = seq![bytes.first()] + to_u5(bytes.skip(2));
    lemma_to_u5_bounded(bytes.skip(2));
    assert(digits_bounded(32, data5));
    lemma_bech32_of_separator(made, data5);
}

/// Regrouping to 5-bit groups and back is the identity on byte strings.
pub proof fn lemma_regroup_round_trip(bytes: Seq<u8>)
    ensures
        from_u5(to_u5(bytes)) == Some(bytes),
{
    let n = bytes.len();
    lemma_fundamental_div_mod(8 * n as int + 4, 5);
    vstd::arithmetic::div_mod::lemma_mod_bound(8 * n as int + 4, 5);
    let len5 = (8 * n + 4) / 5;
    let pad = 5 * len5 - 8 * n;
    assert(0 <= pad <= 4);
    let v0 = place_value(256, bytes);
    let v = v0 * pow2(pad as nat);
    lemma_to_u5_shape(bytes);
    let g = to_u5(bytes);
    lemma_place_value_zero_pad(32, digits_of(32, v), len5);
    assert(g.len() == len5);
    lemma_digits_of_shape(32, v);
    assert(digits_bounded(32, g)) by {
        assert forall|i: int| 0 <= i < g.len() implies g[i] < 32 by {
            if i >= len5 - digits_of(32, v).len() {
                assert(g[i] == digits_of(32, v)[i - (len5 - digits_of(32, v).len())]);
            } else {
                assert(g[i] == 0);
            }
        }
    }
    lemma_place_value_of_digits(32, v);
    assert(place_value(32, g) == v);
    // the regrouping arithmetic of the decode direction
    assert(5 * len5 == 8 * n + pad);
    lemma_fundamental_div_mod_converse(5 * len5 as int, 8, n as int, pad);
    assert((5 * g.len()) % 8 == pad);
    assert((5 * g.len()) / 8 == n);
    vstd::arithmetic::power2::lemma_pow2_pos(pad as nat);
    vstd::arithmetic::div_mod::lemma_mod_multiples_basic(v0 as int, pow2(pad as nat) as int);
    vstd::arithmetic::div_mod::lemma_div_by_multiple(v0 as int, pow2(pad as nat) as int);
    assert(v % pow2(pad as nat) == 0);
    assert(v / pow2(pad as nat) == v0);
    lemma_digits_unique_padded(256, bytes, n);
    assert(from_u5(g) == Some(zero_pad(digits_of(256, v0), n)));
    assert(zero_pad(digits_of(256, v0), n) == bytes);
}


/// Decoding a rendering re-finds the prefix, the group values and a closed
/// checksum.
proof fn lemma_bech32_of_decodes(hrp: Seq<char>, data5: Seq<u8>)
    requires
        hrp.len() >= 1,
        forall|i: int| 0 <= i < hrp.len() ==> hrp[i] != '1',
        digits_bounded(32, data5),
    ensures
        ({
            let t = bech32_of(hrp, data5);
            let sep = hrp.len() as int;
            &&& last_separator(t) == sep
            &&& t.take(sep) == hrp
            &&& t.len() == hrp.len() + 1 + data5.len() + 6
            &&& all_base32(t.skip(sep + 1))
            &&& b32_digits_of_chars(t.skip(sep + 1)) == data5 + bech32_checksum(hrp, data5)
            &&& polymod(hrp_expand(hrp) + b32_digits_of_chars(t.skip(sep + 1))) == 1
        }),
{
    let cs = bech32_checksum(hrp, data5);
    lemma_checksum_bounded(hrp, data5);
    let payload5 = data5 + cs;
    let t = bech32_of(hrp, data5);
    let sep = hrp.len() as int;
    assert(t =~= hrp + seq!['1'] + b32_chars_of_digits(payload5));
    lemma_bech32_of_separator(hrp, data5);
    let data_part = t.skip(sep + 1);
    assert(data_part =~= b32_chars_of_digits(payload5));
    assert forall|i: int| 0 <= i < data_part.len() implies b32_digit_of_char(data_part[i]) >= 0
        && b32_digit_of_char(data_part[i]) == payload5[i] as int by {
        lemma_b32_table(payload5[i] as int);
    }
    assert(all_base32(data_part));
    assert(b32_digits_of_chars(data_part) =~= payload5);
    lemma_checksum_polymod(hrp, data5);
    assert(hrp_expand(hrp) + (data5 + cs) =~= hrp_expand(hrp) + b32_digits_of_chars(data_part));
}

/// Round trip: bech32 decoding undoes bech32 encoding of any witness script
/// whose push-length byte matches its program, under the same prefix.
#[verifier::rlimit(100)]
#[verifier::spinoff_prover]
pub proof fn lemma_bech32_round_trip(hrp: Seq<char>, bytes: Seq<u8>)
    requires
        hrp.len() >= 1,
        forall|i: int| 0 <= i < hrp.len() ==> hrp[i] != '1',
        bytes.len() >= 2,
        bytes.first() < 32,
        bytes.len() - 2 <= 255,
        bytes[1] as int == bytes.len() - 2,
    ensures
        (bech32_encode(hrp, bytes) matches Ok(t) && bech32_decode(hrp, t) == Ok::<
            Seq<u8>,
            EncodingError,
        >(bytes)),
{
    let prog = bytes.skip(2);
    let data5 = seq![bytes.first()] + to_u5(prog);
    lemma_to_u5_bounded(prog);
    assert(digits_bounded(32, data5));
    lemma_bech32_of_decodes(hrp, data5);
    lemma_regroup_round_trip(prog);
    let t = bech32_of(hrp, data5);
    let sep = hrp.len() as int;
    let vals = b32_digits_of_chars(t.skip(sep + 1));
    lemma_checksum_bounded(hrp, data5);
    assert(vals.len() == data5.len() + 6);
    assert(vals.len() != 6);
    assert(vals.take(vals.len() - 6) =~= data5);
    assert(data5.drop_first() =~= to_u5(prog));
    assert(data5.first() == bytes.first());
    assert(from_u5(to_u5(prog)) == Some(prog));
    assert(prog.len() <= 255);
    assert(seq![bytes.first(), prog.len() as u8] + prog =~= bytes);
}

} // verus!
