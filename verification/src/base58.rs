//! The base58check codec: a version byte, a payload, and a four-byte
//! double-SHA256 checksum, rendered in the 58-symbol alphabet with each
//! leading zero byte preserved as a leading `1`.

use crate::errors::EncodingError;
use crate::hashes::{checksum4, checksum_of};
use crate::nums::{
    bignum_mul_add, digits_bounded, digits_of, leading_zero_count, lemma_digits_of_place_value,
    lemma_digits_of_shape, lemma_leading_zero_count, lemma_leading_zero_count_unique,
    lemma_place_value_le_reverse, lemma_place_value_of_digits, lemma_place_value_take_succ,
    lemma_place_value_zero_prefix, no_leading_zero, no_trailing_zero, place_value, place_value_le,
    zeros,
};
use crate::text::{str_to_chars, string_from_chars};
use vstd::prelude::*;

verus! {

/// The base58 character of a digit value.
pub open spec fn b58_char_of_digit(d: int) -> char {
    if d == 0 {
        '1'
    } else if d == 1 {
        '2'
    } else if d == 2 {
        '3'
    } else if d == 3 {
        '4'
    } else if d == 4 {
        '5'
    } else if d == 5 {
        '6'
    } else if d == 6 {
        '7'
    } else if d == 7 {
        '8'
    } else if d == 8 {
        '9'
    } else if d == 9 {
        'A'
    } else if d == 10 {
        'B'
    } else if d == 11 {
        'C'
    } else if d == 12 {
        'D'
    } else if d == 13 {
        'E'
    } else if d == 14 {
        'F'
    } else if d == 15 {
        'G'
    } else if d == 16 {
        'H'
    } else if d == 17 {
        'J'
    } else if d == 18 {
        'K'
    } else if d == 19 {
        'L'
    } else if d == 20 {
        'M'
    } else if d == 21 {
        'N'
    } else if d == 22 {
        'P'
    } else if d == 23 {
        'Q'
    } else if d == 24 {
        'R'
    } else if d == 25 {
        'S'
    } else if d == 26 {
        'T'
    } else if d == 27 {
        'U'
    } else if d == 28 {
        'V'
    } else if d == 29 {
        'W'
    } else if d == 30 {
        'X'
    } else if d == 31 {
        'Y'
    } else if d == 32 {
        'Z'
    } else if d == 33 {
        'a'
    } else if d == 34 {
        'b'
    } else if d == 35 {
        'c'
    } else if d == 36 {
        'd'
    } else if d == 37 {
        'e'
    } else if d == 38 {
        'f'
    } else if d == 39 {
        'g'
    } else if d == 40 {
        'h'
    } else if d == 41 {
        'i'
    } else if d == 42 {
        'j'
    } else if d == 43 {
        'k'
    } else if d == 44 {
        'm'
    } else if d == 45 {
        'n'
    } else if d == 46 {
        'o'
    } else if d == 47 {
        'p'
    } else if d == 48 {
        'q'
    } else if d == 49 {
        'r'
    } else if d == 50 {
        's'
    } else if d == 51 {
        't'
    } else if d == 52 {
        'u'
    } else if d == 53 {
        'v'
    } else if d == 54 {
        'w'
    } else if d == 55 {
        'x'
    } else if d == 56 {
        'y'
    } else {
        'z'
    }
}

/// The digit value of a base58 character, or -1 for anything else.
pub open spec fn b58_digit_of_char(c: char) -> int {
    if c == '1' {
        0
    } else if c == '2' {
        1
    } else if c == '3' {
        2
    } else if c == '4' {
        3
    } else if c == '5' {
        4
    } else if c == '6' {
        5
    } else if c == '7' {
        6
    } else if c == '8' {
        7
    } else if c == '9' {
        8
    } else if c == 'A' {
        9
    } else if c == 'B' {
        10
    } else if c == 'C' {
        11
    } else if c == 'D' {
        12
    } else if c == 'E' {
        13
    } else if c == 'F' {
        14
    } else if c == 'G' {
        15
    } else if c == 'H' {
        16
    } else if c == 'J' {
        17
    } else if c == 'K' {
        18
    } else if c == 'L' {
        19
    } else if c == 'M' {
        20
    } else if c == 'N' {
        21
    } else if c == 'P' {
        22
    } else if c == 'Q' {
        23
    } else if c == 'R' {
        24
    } else if c == 'S' {
        25
    } else if c == 'T' {
        26
    } else if c == 'U' {
        27
    } else if c == 'V' {
        28
    } else if c == 'W' {
        29
    } else if c == 'X' {
        30
    } else if c == 'Y' {
        31
    } else if c == 'Z' {
        32
    } else if c == 'a' {
        33
    } else if c == 'b' {
        34
    } else if c == 'c' {
        35
    } else if c == 'd' {
        36
    } else if c == 'e' {
        37
    } else if c == 'f' {
        38
    } else if c == 'g' {
        39
    } else if c == 'h' {
        40
    } else if c == 'i' {
        41
    } else if c == 'j' {
        42
    } else if c == 'k' {
        43
    } else if c == 'm' {
        44
    } else if c == 'n' {
        45
    } else if c == 'o' {
        46
    } else if c == 'p' {
        47
    } else if c == 'q' {
        48
    } else if c == 'r' {
        49
    } else if c == 's' {
        50
    } else if c == 't' {
        51
    } else if c == 'u' {
        52
    } else if c == 'v' {
        53
    } else if c == 'w' {
        54
    } else if c == 'x' {
        55
    } else if c == 'y' {
        56
    } else if c == 'z' {
        57
    } else {
        -1
    }
}

/// Every character of the string is in the base58 alphabet.
pub open spec fn all_base58(s: Seq<char>) -> bool {
    forall|i: int| 0 <= i < s.len() ==> b58_digit_of_char(s[i]) >= 0
}

/// The digit values of a base58 string.
pub open spec fn b58_digits_of_chars(s: Seq<char>) -> Seq<u8> {
    s.map_values(|c: char| b58_digit_of_char(c) as u8)
}

/// The characters of a base58 digit string.
pub open spec fn b58_chars_of_digits(d: Seq<u8>) -> Seq<char> {
    d.map_values(|x: u8| b58_char_of_digit(x as int))
}

/// The base58 rendering of a byte string: one `1` per leading zero byte,
/// then the base-58 digits of the bytes' big-endian value.
pub open spec fn base58_of(bytes: Seq<u8>) -> Seq<char> {
    Seq::new(leading_zero_count(bytes), |i: int| '1') + b58_chars_of_digits(
        digits_of(58, place_value(256, bytes)),
    )
}

/// The bytes of a base58 string: one zero byte per leading `1`, then the
/// big-endian bytes of the string's value; nothing if a character is out of
/// the alphabet.
pub open spec fn base58_decode(s: Seq<char>) -> Option<Seq<u8>> {
    if all_base58(s) {
        let ds = b58_digits_of_chars(s);
        Some(zeros(leading_zero_count(ds)) + digits_of(256, place_value(58, ds)))
    } else {
        None
    }
}

/// The base58check rendering of a version byte and payload.
pub open spec fn base58check_of(version: u8, payload: Seq<u8>) -> Seq<char> {
    base58_of(seq![version] + payload + checksum_of(seq![version] + payload))
}

/// Base58check decoding: base58-decode, then check length, version byte and
/// checksum, in that order, each failure with its own condition.
pub open spec fn base58check_decode(version: u8, s: Seq<char>) -> Result<Seq<u8>, EncodingError> {
    match base58_decode(s) {
        Option::None => Result::Err(EncodingError::InvalidBase58Char),
        Option::Some(b) => {
            if b.len() < 5 {
                Result::Err(EncodingError::TooShortBase58)
            } else if b.first() != version {
                Result::Err(EncodingError::WrongVersion)
            } else if b.subrange(b.len() - 4, b.len() as int) != checksum_of(b.take(b.len() - 4)) {
                Result::Err(EncodingError::BadBase58Checksum)
            } else {
                Result::Ok(b.subrange(1, b.len() - 4))
            }
        },
    }
}

fn b58_char(d: u8) -> (c: char)
    requires
        d < 58,
    ensures
        c == b58_char_of_digit(d as int),
{
    if d == 0 {
        '1'
    } else if d == 1 {
        '2'
    } else if d == 2 {
        '3'
    } else if d == 3 {
        '4'
    } else if d == 4 {
        '5'
    } else if d == 5 {
        '6'
    } else if d == 6 {
        '7'
    } else if d == 7 {
        '8'
    } else if d == 8 {
        '9'
    } else if d == 9 {
        'A'
    } else if d == 10 {
        'B'
    } else if d == 11 {
        'C'
    } else if d == 12 {
        'D'
    } else if d == 13 {
        'E'
    } else if d == 14 {
        'F'
    } else if d == 15 {
        'G'
    } else if d == 16 {
        'H'
    } else if d == 17 {
        'J'
    } else if d == 18 {
        'K'
    } else if d == 19 {
        'L'
    } else if d == 20 {
        'M'
    } else if d == 21 {
        'N'
    } else if d == 22 {
        'P'
    } else if d == 23 {
        'Q'
    } else if d == 24 {
        'R'
    } else if d == 25 {
        'S'
    } else if d == 26 {
        'T'
    } else if d == 27 {
        'U'
    } else if d == 28 {
        'V'
    } else if d == 29 {
        'W'
    } else if d == 30 {
        'X'
    } else if d == 31 {
        'Y'
    } else if d == 32 {
        'Z'
    } else if d == 33 {
        'a'
    } else if d == 34 {
        'b'
    } else if d == 35 {
        'c'
    } else if d == 36 {
        'd'
    } else if d == 37 {
        'e'
    } else if d == 38 {
        'f'
    } else if d == 39 {
        'g'
    } else if d == 40 {
        'h'
    } else if d == 41 {
        'i'
    } else if d == 42 {
        'j'
    } else if d == 43 {
        'k'
    } else if d == 44 {
        'm'
    } else if d == 45 {
        'n'
    } else if d == 46 {
        'o'
    } else if d == 47 {
        'p'
    } else if d == 48 {
        'q'
    } else if d == 49 {
        'r'
    } else if d == 50 {
        's'
    } else if d == 51 {
        't'
    } else if d == 52 {
        'u'
    } else if d == 53 {
        'v'
    } else if d == 54 {
        'w'
    } else if d == 55 {
        'x'
    } else if d == 56 {
        'y'
    } else {
        'z'
    }
}

fn b58_digit(c: char) -> (r: Option<u8>)
    ensures
        r is Some <==> b58_digit_of_char(c) >= 0,
        r is Some ==> r->0 as int == b58_digit_of_char(c) && r->0 < 58,
{
    if c == '1' {
        Some(0)
    } else if c == '2' {
        Some(1)
    } else if c == '3' {
        Some(2)
    } else if c == '4' {
        Some(3)
    } else if c == '5' {
        Some(4)
    } else if c == '6' {
        Some(5)
    } else if c == '7' {
        Some(6)
    } else if c == '8' {
        Some(7)
    } else if c == '9' {
        Some(8)
    } else if c == 'A' {
        Some(9)
    } else if c == 'B' {
        Some(10)
    } else if c == 'C' {
        Some(11)
    } else if c == 'D' {
        Some(12)
    } else if c == 'E' {
        Some(13)
    } else if c == 'F' {
        Some(14)
    } else if c == 'G' {
        Some(15)
    } else if c == 'H' {
        Some(16)
    } else if c == 'J' {
        Some(17)
    } else if c == 'K' {
        Some(18)
    } else if c == 'L' {
        Some(19)
    } else if c == 'M' {
        Some(20)
    } else if c == 'N' {
        Some(21)
    } else if c == 'P' {
        Some(22)
    } else if c == 'Q' {
        Some(23)
    } else if c == 'R' {
        Some(24)
    } else if c == 'S' {
        Some(25)
    } else if c == 'T' {
        Some(26)
    } else if c == 'U' {
        Some(27)
    } else if c == 'V' {
        Some(28)
    } else if c == 'W' {
        Some(29)
    } else if c == 'X' {
        Some(30)
    } else if c == 'Y' {
        Some(31)
    } else if c == 'Z' {
        Some(32)
    } else if c == 'a' {
        Some(33)
    } else if c == 'b' {
        Some(34)
    } else if c == 'c' {
        Some(35)
    } else if c == 'd' {
        Some(36)
    } else if c == 'e' {
        Some(37)
    } else if c == 'f' {
        Some(38)
    } else if c == 'g' {
        Some(39)
    } else if c == 'h' {
        Some(40)
    } else if c == 'i' {
        Some(41)
    } else if c == 'j' {
        Some(42)
    } else if c == 'k' {
        Some(43)
    } else if c == 'm' {
        Some(44)
    } else if c == 'n' {
        Some(45)
    } else if c == 'o' {
        Some(46)
    } else if c == 'p' {
        Some(47)
    } else if c == 'q' {
        Some(48)
    } else if c == 'r' {
        Some(49)
    } else if c == 's' {
        Some(50)
    } else if c == 't' {
        Some(51)
    } else if c == 'u' {
        Some(52)
    } else if c == 'v' {
        Some(53)
    } else if c == 'w' {
        Some(54)
    } else if c == 'x' {
        Some(55)
    } else if c == 'y' {
        Some(56)
    } else if c == 'z' {
        Some(57)
    } else {
        None
    }
}


/// Render a version byte and payload as base58check.
pub fn encode_base58(version: u8, payload: &[u8]) -> (r: String)
    ensures
        r@ == base58check_of(version, payload@),
{
    let mut buf: Vec<u8> = Vec::new();
    buf.push(version);
    buf.extend_from_slice(payload);
    proof {
        assert(buf@ =~= seq![version] + payload@);
    }
    let check = checksum4(buf.as_slice());
    buf.extend_from_slice(check.as_slice());
    let ghost whole = seq![version] + payload@ + checksum_of(seq![version] + payload@);
    proof {
        assert(buf@ =~= whole);
    }
    let n = buf.len();
    let mut z: usize = 0;
    while z < n && buf[z] == 0
        invariant
            n == buf@.len(),
            0 <= z <= n,
            forall|j: int| 0 <= j < z ==> buf@[j] == 0,
        decreases n - z,
    {
        z = z + 1;
    }
    proof {
        lemma_leading_zero_count_unique(buf@, z as int);
    }
    let mut digits: Vec<u8> = Vec::new();
    let mut i: usize = 0;
    proof {
        assert(buf@.take(0) =~= Seq::<u8>::empty());
    }
    while i < n
        invariant
            n == buf@.len(),
            0 <= i <= n,
            digits_bounded(58, digits@),
            no_trailing_zero(digits@),
            place_value_le(58, digits@) == place_value(256, buf@.take(i as int)),
        decreases n - i,
    {
        proof {
            lemma_place_value_take_succ(256, buf@, i as int);
        }
        bignum_mul_add(&mut digits, 58, 256, buf[i] as u32);
        i = i + 1;
    }
    proof {
        assert(buf@.take(n as int) =~= buf@);
        lemma_place_value_le_reverse(58, digits@);
        assert(digits@.reverse().len() == digits@.len());
        if digits@.len() > 0 {
            assert(digits@.reverse().first() == digits@.last());
        }
        assert(digits_bounded(58, digits@.reverse()));
        lemma_digits_of_place_value(58, digits@.reverse());
        assert(digits_of(58, place_value(256, buf@)) == digits@.reverse());
    }
    let mut out: Vec<char> = Vec::new();
    let mut k: usize = 0;
    while k < z
        invariant
            0 <= k <= z,
            out@ =~= Seq::new(k as nat, |i: int| '1'),
        decreases z - k,
    {
        out.push('1');
        proof {
            assert(out@ =~= Seq::new((k + 1) as nat, |i: int| '1'));
        }
        k = k + 1;
    }
    let m = digits.len();
    let ghost rev = digits@.reverse();
    let mut t: usize = 0;
    while t < m
        invariant
            m == digits@.len(),
            rev == digits@.reverse(),
            digits_bounded(58, digits@),
            0 <= t <= m,
            z == Seq::new(z as nat, |i: int| '1').len(),
            out@ =~= Seq::new(z as nat, |i: int| '1') + b58_chars_of_digits(rev.take(t as int)),
        decreases m - t,
    {
        let d = digits[m - 1 - t];
        proof {
            assert(rev[t as int] == digits@[m - 1 - t]);
        }
        let c = b58_char(d);
        out.push(c);
        proof {
            assert(b58_chars_of_digits(rev.take(t + 1)) =~= b58_chars_of_digits(
                rev.take(t as int),
            ).push(c));
        }
        t = t + 1;
    }
    proof {
        assert(rev.take(m as int) =~= rev);
        assert(out@ =~= base58_of(buf@));
    }
    string_from_chars(out)
}

/// Decode base58check text against an expected version byte, re-verifying
/// the checksum unconditionally.
pub fn decode_base58(version: u8, s: &str) -> (r: Result<Vec<u8>, EncodingError>)
    ensures
        match r {
            Ok(v) => base58check_decode(version, s@) == Ok::<Seq<u8>, EncodingError>(v@),
            Err(e) => base58check_decode(version, s@) == Err::<Seq<u8>, EncodingError>(e),
        },
{
    let chars = str_to_chars(s);
    let n = chars.len();
    let mut ds: Vec<u8> = Vec::new();
    let mut i: usize = 0;
    while i < n
        invariant
            n == s@.len(),
            chars@ == s@,
            0 <= i <= n,
            ds@.len() == i,
            forall|j: int| 0 <= j < i ==> b58_digit_of_char(s@[j]) >= 0,
            forall|j: int| 0 <= j < i ==> ds@[j] as int == b58_digit_of_char(s@[j]) && ds@[j] < 58,
        decreases n - i,
    {
        match b58_digit(chars[i]) {
            Some(d) => {
                ds.push(d);
            },
            None => {
                proof {
                    assert(!all_base58(s@));
                }
                return Err(EncodingError::InvalidBase58Char);
            },
        }
        i = i + 1;
    }
    proof {
        assert(all_base58(s@));
        assert(ds@ =~= b58_digits_of_chars(s@));
    }
    let mut z: usize = 0;
    while z < n && ds[z] == 0
        invariant
            n == ds@.len(),
            0 <= z <= n,
            forall|j: int| 0 <= j < z ==> ds@[j] == 0,
        decreases n - z,
    {
        z = z + 1;
    }
    proof {
        lemma_leading_zero_count_unique(ds@, z as int);
    }
    let mut le: Vec<u8> = Vec::new();
    let mut i2: usize = 0;
    proof {
        assert(ds@.take(0) =~= Seq::<u8>::empty());
    }
    while i2 < n
        invariant
            n == ds@.len(),
            0 <= i2 <= n,
            digits_bounded(256, le@),
            no_trailing_zero(le@),
            forall|j: int| 0 <= j < n ==> ds@[j] < 58,
            place_value_le(256, le@) == place_value(58, ds@.take(i2 as int)),
        decreases n - i2,
    {
        proof {
            lemma_place_value_take_succ(58, ds@, i2 as int);
        }
        bignum_mul_add(&mut le, 256, 58, ds[i2] as u32);
        i2 = i2 + 1;
    }
    proof {
        assert(ds@.take(n as int) =~= ds@);
        lemma_place_value_le_reverse(256, le@);
        if le@.len() > 0 {
            assert(le@.reverse().first() == le@.last());
        }
        assert(digits_bounded(256, le@.reverse()));
        lemma_digits_of_place_value(256, le@.reverse());
        assert(digits_of(256, place_value(58, ds@)) == le@.reverse());
    }
    let mut b: Vec<u8> = Vec::new();
    let mut k: usize = 0;
    while k < z
        invariant
            0 <= k <= z,
            b@ =~= zeros(k as nat),
        decreases z - k,
    {
        b.push(0);
        proof {
            assert(b@ =~= zeros((k + 1) as nat));
        }
        k = k + 1;
    }
    let m = le.len();
    let ghost rev = le@.reverse();
    let mut t: usize = 0;
    while t < m
        invariant
            m == le@.len(),
            rev == le@.reverse(),
            0 <= t <= m,
            z == zeros(z as nat).len(),
            b@ =~= zeros(z as nat) + rev.take(t as int),
        decreases m - t,
    {
        let d = le[m - 1 - t];
        proof {
            assert(rev[t as int] == le@[m - 1 - t]);
        }
        b.push(d);
        proof {
            assert(rev.take(t + 1) =~= rev.take(t as int).push(d));
        }
        t = t + 1;
    }
    let ghost spec_bytes = zeros(leading_zero_count(b58_digits_of_chars(s@))) + digits_of(
        256,
        place_value(58, b58_digits_of_chars(s@)),
    );
    proof {
        assert(rev.take(m as int) =~= rev);
        assert(b@ =~= spec_bytes);
        assert(base58_decode(s@) == Some(spec_bytes));
    }
    if b.len() < 5 {
        return Err(EncodingError::TooShortBase58);
    }
    if b[0] != version {
        return Err(EncodingError::WrongVersion);
    }
    let body_len = b.len() - 4;
    let body = vstd::slice::slice_subrange(b.as_slice(), 0, body_len);
    let check = checksum4(body);
    proof {
        assert(body@ =~= b@.take(b@.len() - 4));
    }
    let blen = b.len();
    let mut ok = true;
    let mut ci: usize = 0;
    while ci < 4
        invariant
            0 <= ci <= 4,
            check@.len() == 4,
            blen == b@.len(),
            body_len + 4 == blen,
            ok <==> (forall|j: int| 0 <= j < ci ==> b@[body_len + j] == check@[j]),
        decreases 4 - ci,
    {
        if b[body_len + ci] != check[ci] {
            ok = false;
        }
        ci = ci + 1;
    }
    if !ok {
        proof {
            let bs = b@;
            assert(bs.subrange(bs.len() - 4, bs.len() as int) != checksum_of(
                bs.take(bs.len() - 4),
            )) by {
                let lhs = bs.subrange(bs.len() - 4, bs.len() as int);
                let rhs = checksum_of(bs.take(bs.len() - 4));
                let j = choose|j: int| 0 <= j < 4 && bs[body_len + j] != check@[j];
                assert(lhs[j] != rhs[j]);
            }
        }
        return Err(EncodingError::BadBase58Checksum);
    }
    proof {
        let bs = b@;
        assert(bs.subrange(bs.len() - 4, bs.len() as int) =~= checksum_of(bs.take(bs.len() - 4)));
    }
    let payload = vstd::slice::slice_to_vec(vstd::slice::slice_subrange(
        b.as_slice(),
        1,
        body_len,
    ));
    proof {
        assert(payload@ =~= b@.subrange(1, b@.len() - 4));
    }
    Ok(payload)
}


/// The alphabet tables invert each other on digit values.
pub proof fn lemma_b58_table(d: int)
    requires
        0 <= d < 58,
    ensures
        b58_digit_of_char(b58_char_of_digit(d)) == d,
{
}

/// Base58 decoding undoes base58 encoding exactly.
pub proof fn lemma_base58_round_trip(bytes: Seq<u8>)
    ensures
        base58_decode(base58_of(bytes)) == Some(bytes),
{
    let v = place_value(256, bytes);
    let z = leading_zero_count(bytes);
    let d = digits_of(58, v);
    let enc = base58_of(bytes);
    let ones = Seq::new(z, |i: int| '1');
    lemma_digits_of_shape(58, v);
    lemma_leading_zero_count(bytes);

    // every character of the rendering is in the alphabet
    assert forall|i: int| 0 <= i < enc.len() implies b58_digit_of_char(enc[i]) >= 0 by {
        if i < z {
            assert(enc[i] == '1');
        } else {
            assert(enc[i] == b58_char_of_digit(d[i - z] as int));
            lemma_b58_table(d[i - z] as int);
        }
    }
    assert(all_base58(enc));

    // the digit values of the rendering are the zero run plus the digits
    let ds = b58_digits_of_chars(enc);
    assert forall|i: int| 0 <= i < enc.len() implies ds[i] == (zeros(z) + d)[i] by {
        if i < z {
            assert(enc[i] == '1');
            assert(b58_digit_of_char('1') == 0);
        } else {
            assert(enc[i] == b58_char_of_digit(d[i - z] as int));
            lemma_b58_table(d[i - z] as int);
        }
    }
    assert(ds =~= zeros(z) + d);

    // the zero run is exactly the leading-zero count of the digit values
    assert forall|j: int| 0 <= j < z implies ds[j] == 0 by {}
    if d.len() > 0 {
        assert(ds[z as int] == d.first());
    }
    lemma_leading_zero_count_unique(ds, z as int);

    // the value of the digit values is the value of the bytes
    lemma_place_value_zero_prefix(58, ds, z as int);
    assert(ds.skip(z as int) =~= d);
    lemma_place_value_of_digits(58, v);
    assert(place_value(58, ds) == v);

    // the decoded bytes are the zero run plus the stripped bytes
    let stripped = bytes.skip(z as int);
    lemma_place_value_zero_prefix(256, bytes, z as int);
    assert(no_leading_zero(stripped)) by {
        if stripped.len() > 0 {
            assert(stripped.first() == bytes[z as int]);
        }
    }
    lemma_digits_of_place_value(256, stripped);
    assert(digits_of(256, v) == stripped);
    assert(zeros(z) + stripped =~= bytes);
}

/// Base58check decoding with the same version undoes base58check encoding.
pub proof fn lemma_base58check_round_trip(version: u8, payload: Seq<u8>)
    ensures
        base58check_decode(version, base58check_of(version, payload)) == Ok::<
            Seq<u8>,
            EncodingError,
        >(payload),
{
    let whole = seq![version] + payload + checksum_of(seq![version] + payload);
    lemma_base58_round_trip(whole);
    assert(whole.len() == payload.len() + 5);
    assert(whole.first() == version);
    assert(whole.take(whole.len() - 4) =~= seq![version] + payload);
    assert(whole.subrange(whole.len() - 4, whole.len() as int) =~= checksum_of(
        whole.take(whole.len() - 4),
    ));
    assert(whole.subrange(1, whole.len() - 4) =~= payload);
}

/// A base58check string made under one version byte never decodes under a
/// different one: the version check fails.
pub proof fn lemma_base58check_wrong_version(made: u8, tried: u8, payload: Seq<u8>)
    requires
        made != tried,
    ensures
        base58check_decode(tried, base58check_of(made, payload)) == Err::<
            Seq<u8>,
            EncodingError,
        >(EncodingError::WrongVersion),
{
    let whole = seq![made] + payload + checksum_of(seq![made] + payload);
    lemma_base58_round_trip(whole);
    assert(whole.first() == made);
}

} // verus!
