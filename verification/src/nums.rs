//! Positional number representations shared by the base58 and bech32 codecs.
//!
//! Both codecs are, at heart, base conversions of big-endian digit strings:
//! base58 turns base-256 bytes into base-58 digits, bech32 regroups base-256
//! bytes into base-32 groups.  This module gives the mathematical model: the
//! value of a digit string, the canonical (no leading zero) digit string of a
//! value, and the lemmas connecting the two.

use vstd::arithmetic::div_mod::{
    lemma_div_decreases, lemma_fundamental_div_mod, lemma_fundamental_div_mod_converse,
};
use vstd::arithmetic::power::pow;
use vstd::prelude::*;

verus! {

/// The value of a big-endian digit string in the given base.
pub open spec fn place_value(base: nat, digits: Seq<u8>) -> nat
    decreases digits.len(),
{
    if digits.len() == 0 {
        0
    } else {
        place_value(base, digits.drop_last()) * base + digits.last() as nat
    }
}

/// The value of a little-endian digit string in the given base.
pub open spec fn place_value_le(base: nat, digits: Seq<u8>) -> nat
    decreases digits.len(),
{
    if digits.len() == 0 {
        0
    } else {
        digits.first() as nat + base * place_value_le(base, digits.drop_first())
    }
}

/// The canonical big-endian digit string of `n` in the given base: no
/// leading zero digit, and empty exactly for zero.
pub open spec fn digits_of(base: nat, n: nat) -> Seq<u8>
    decreases n,
        when base >= 2
        via digits_of_decreases
{
    if n == 0 {
        Seq::empty()
    } else {
        digits_of(base, n / base).push((n % base) as u8)
    }
}

#[via_fn]
proof fn digits_of_decreases(base: nat, n: nat) {
    if n != 0 {
        lemma_div_decreases(n as int, base as int);
    }
}

/// A run of zero digits.
pub open spec fn zeros(n: nat) -> Seq<u8> {
    Seq::new(n, |i: int| 0u8)
}

/// `digits` left-padded with zero digits to length `len`.
pub open spec fn zero_pad(digits: Seq<u8>, len: nat) -> Seq<u8> {
    zeros((len - digits.len()) as nat) + digits
}

/// All digits lie below the base.
pub open spec fn digits_bounded(base: nat, digits: Seq<u8>) -> bool {
    forall|i: int| 0 <= i < digits.len() ==> digits[i] < base
}

/// A big-endian digit string with no leading zero digit.
pub open spec fn no_leading_zero(digits: Seq<u8>) -> bool {
    digits.len() > 0 ==> digits.first() != 0
}

/// A little-endian digit string with no trailing zero digit.
pub open spec fn no_trailing_zero(digits: Seq<u8>) -> bool {
    digits.len() > 0 ==> digits.last() != 0
}

/// Extending a big-endian prefix by one digit multiplies its value by the base.
pub proof fn lemma_place_value_take_succ(base: nat, s: Seq<u8>, i: int)
    requires
        0 <= i < s.len(),
    ensures
        place_value(base, s.take(i + 1)) == place_value(base, s.take(i)) * base + s[i],
{
    assert(s.take(i + 1).drop_last() =~= s.take(i));
    assert(s.take(i + 1).last() == s[i]);
}

/// Appending a digit to a little-endian string adds it at the next power.
pub proof fn lemma_place_value_le_snoc(base: nat, s: Seq<u8>, x: u8)
    requires
        base >= 1,
    ensures
        place_value_le(base, s.push(x)) == place_value_le(base, s) + x * pow(
            base as int,
            s.len(),
        ),
    decreases s.len(),
{
    reveal(pow);
    if s.len() == 0 {
        assert(s.push(x).first() == x);
        assert(s.push(x).drop_first() =~= Seq::<u8>::empty());
        assert(place_value_le(base, Seq::<u8>::empty()) == 0);
        assert(pow(base as int, 0) == 1);
        assert(place_value_le(base, s.push(x)) == x as nat + base * 0);
    } else {
        assert(s.push(x).first() == s.first());
        assert(s.push(x).drop_first() =~= s.drop_first().push(x));
        lemma_place_value_le_snoc(base, s.drop_first(), x);
        let b = base as int;
        let p = pow(b, (s.len() - 1) as nat);
        assert(pow(b, s.len()) == b * p);
        assert(place_value_le(base, s.push(x)) == s.first() as nat + base * place_value_le(
            base,
            s.drop_first().push(x),
        ));
        assert(base * (place_value_le(base, s.drop_first()) + x * p) == base * place_value_le(
            base,
            s.drop_first(),
        ) + x * (base * p)) by (nonlinear_arith);
    }
}

/// A little-endian digit string has the value of its reversal read big-endian.
pub proof fn lemma_place_value_le_reverse(base: nat, s: Seq<u8>)
    ensures
        place_value_le(base, s) == place_value(base, s.reverse()),
    decreases s.len(),
{
    if s.len() > 0 {
        lemma_place_value_le_reverse(base, s.drop_first());
        assert(s.reverse().drop_last() =~= s.drop_first().reverse());
        assert(s.reverse().last() == s.first());
        assert(base * place_value_le(base, s.drop_first()) == place_value_le(
            base,
            s.drop_first(),
        ) * base) by (nonlinear_arith);
    }
}

/// A digit string's value is below the base raised to its length.
pub proof fn lemma_place_value_bound(base: nat, s: Seq<u8>)
    requires
        base >= 1,
        digits_bounded(base, s),
    ensures
        place_value(base, s) < pow(base as int, s.len()),
    decreases s.len(),
{
    reveal(pow);
    if s.len() == 0 {
    } else {
        lemma_place_value_bound(base, s.drop_last());
        let b = base as int;
        let v = place_value(base, s.drop_last()) as int;
        let p = pow(b, (s.len() - 1) as nat);
        assert(v <= p - 1);
        assert(v * b <= (p - 1) * b) by (nonlinear_arith)
            requires
                v <= p - 1,
                b >= 1,
        ;
        assert((p - 1) * b == p * b - b) by (nonlinear_arith);
        assert(b * p == p * b) by (nonlinear_arith);
    }
}

/// A big-endian digit string without a leading zero has a positive value.
pub proof fn lemma_place_value_pos(base: nat, s: Seq<u8>)
    requires
        base >= 1,
        s.len() > 0,
        s.first() != 0,
    ensures
        place_value(base, s) >= 1,
    decreases s.len(),
{
    if s.len() == 1 {
    } else {
        assert(s.drop_last().first() == s.first());
        lemma_place_value_pos(base, s.drop_last());
        let b = base as int;
        let v = place_value(base, s.drop_last()) as int;
        assert(v * b >= 1 * b) by (nonlinear_arith)
            requires
                v >= 1,
                b >= 1,
        ;
    }
}

/// The canonical digit string: every digit is below the base and the leading
/// digit of a positive value is not zero.
pub proof fn lemma_digits_of_shape(base: nat, n: nat)
    requires
        2 <= base <= 256,
    ensures
        digits_bounded(base, digits_of(base, n)),
        no_leading_zero(digits_of(base, n)),
        n > 0 ==> digits_of(base, n).len() > 0,
    decreases n,
{
    if n > 0 {
        lemma_div_decreases(n as int, base as int);
        lemma_fundamental_div_mod(n as int, base as int);
        vstd::arithmetic::div_mod::lemma_mod_bound(n as int, base as int);
        lemma_digits_of_shape(base, n / base);
        let d = digits_of(base, n / base);
        let whole = digits_of(base, n);
        assert(whole == d.push((n % base) as u8));
        if n / base == 0 {
            assert(n % base == n);
            assert(whole.first() == n as u8);
        } else {
            assert(whole.first() == d.first());
        }
    }
}

/// The canonical digit string of `n` evaluates back to `n`.
pub proof fn lemma_place_value_of_digits(base: nat, n: nat)
    requires
        2 <= base <= 256,
    ensures
        place_value(base, digits_of(base, n)) == n,
    decreases n,
{
    if n > 0 {
        lemma_div_decreases(n as int, base as int);
        lemma_fundamental_div_mod(n as int, base as int);
        vstd::arithmetic::div_mod::lemma_mod_bound(n as int, base as int);
        lemma_place_value_of_digits(base, n / base);
        let d = digits_of(base, n / base);
        let whole = digits_of(base, n);
        assert(whole == d.push((n % base) as u8));
        assert(whole.drop_last() =~= d);
        assert(whole.last() == (n % base) as u8);
        assert((n % base) as u8 as nat == n % base);
        assert(place_value(base, whole) == place_value(base, d) * base + n % base);
        assert(place_value(base, d) * base == base * (n / base)) by (nonlinear_arith)
            requires
                place_value(base, d) == n / base,
        ;
    }
}

/// Uniqueness: a bounded digit string without a leading zero is the canonical
/// digit string of its value.
pub proof fn lemma_digits_of_place_value(base: nat, s: Seq<u8>)
    requires
        2 <= base <= 256,
        digits_bounded(base, s),
        no_leading_zero(s),
    ensures
        digits_of(base, place_value(base, s)) == s,
    decreases s.len(),
{
    if s.len() == 0 {
    } else {
        let e = s.drop_last();
        let x = s.last();
        let v = place_value(base, s);
        let ve = place_value(base, e);
        assert(v == ve * base + x);
        if e.len() > 0 {
            assert(e.first() == s.first());
            lemma_place_value_pos(base, e);
            assert(ve * base >= 1 * base) by (nonlinear_arith)
                requires
                    ve >= 1,
                    base >= 2,
            ;
        }
        assert(v > 0 || e.len() == 0);
        if v == 0 {
            // then e is empty and x == 0, contradicting no_leading_zero
            assert(s.first() == x);
            assert(false);
        }
        lemma_fundamental_div_mod_converse(v as int, base as int, ve as int, x as int);
        assert(v / base == ve && v % base == x);
        lemma_digits_of_place_value(base, e);
        assert(digits_of(base, v) == digits_of(base, ve).push((v % base) as u8));
        assert(digits_of(base, v) =~= s);
    }
}

/// Leading zero digits do not change the value of a big-endian digit string.
pub proof fn lemma_place_value_zero_prefix(base: nat, s: Seq<u8>, z: int)
    requires
        0 <= z <= s.len(),
        forall|j: int| 0 <= j < z ==> s[j] == 0,
    ensures
        place_value(base, s) == place_value(base, s.skip(z)),
    decreases s.len(),
{
    if z == 0 {
        assert(s.skip(0) =~= s);
    } else if s.len() > 0 {
        let e = s.drop_last();
        if z == s.len() {
            assert(s.last() == 0);
            lemma_place_value_zero_prefix(base, e, e.len() as int);
            assert(e.skip(e.len() as int) =~= Seq::<u8>::empty());
            assert(s.skip(z) =~= Seq::<u8>::empty());
            assert(place_value(base, e) * base == 0 * base) by (nonlinear_arith)
                requires
                    place_value(base, e) == 0,
            ;
        } else {
            lemma_place_value_zero_prefix(base, e, z);
            assert(s.skip(z).drop_last() =~= e.skip(z));
            assert(s.skip(z).last() == s.last());
        }
    }
}

/// The value of a zero-padded digit string is the value of the digits.
pub proof fn lemma_place_value_zero_pad(base: nat, s: Seq<u8>, len: nat)
    requires
        s.len() <= len,
    ensures
        place_value(base, zero_pad(s, len)) == place_value(base, s),
        zero_pad(s, len).len() == len,
    decreases len - s.len(),
{
    let padded = zero_pad(s, len);
    lemma_place_value_zero_prefix(base, padded, (len - s.len()) as int);
    assert(padded.skip((len - s.len()) as int) =~= s);
}

/// Two bounded digit strings of equal length with equal values are equal.
pub proof fn lemma_digits_unique_padded(base: nat, s: Seq<u8>, len: nat)
    requires
        2 <= base <= 256,
        digits_bounded(base, s),
        s.len() == len,
    ensures
        s == zero_pad(digits_of(base, place_value(base, s)), len),
        digits_of(base, place_value(base, s)).len() <= len,
{
    let z = leading_zero_count(s);
    lemma_leading_zero_count(s);
    let t = s.skip(z as int);
    lemma_place_value_zero_prefix(base, s, z as int);
    assert(digits_bounded(base, t));
    assert(no_leading_zero(t));
    lemma_digits_of_place_value(base, t);
    assert(digits_of(base, place_value(base, s)) == t);
    assert(zero_pad(t, len) =~= s);
}

/// How many zero digits open the string.
pub open spec fn leading_zero_count(s: Seq<u8>) -> nat
    decreases s.len(),
{
    if s.len() == 0 || s.first() != 0 {
        0
    } else {
        1 + leading_zero_count(s.drop_first())
    }
}

/// The leading-zero count marks the first nonzero digit.
pub proof fn lemma_leading_zero_count(s: Seq<u8>)
    ensures
        leading_zero_count(s) <= s.len(),
        forall|j: int| 0 <= j < leading_zero_count(s) ==> s[j] == 0,
        leading_zero_count(s) < s.len() ==> s[leading_zero_count(s) as int] != 0,
    decreases s.len(),
{
    if s.len() > 0 && s.first() == 0 {
        lemma_leading_zero_count(s.drop_first());
        let z = leading_zero_count(s);
        assert forall|j: int| 0 <= j < z implies s[j] == 0 by {
            if j > 0 {
                assert(s.drop_first()[j - 1] == s[j]);
            }
        }
        if z < s.len() {
            assert(s.drop_first()[z - 1] == s[z as int]);
        }
    }
}


/// A big-endian digit string without a leading zero is at least the base
/// raised to one less than its length.
pub proof fn lemma_place_value_lower(base: nat, s: Seq<u8>)
    requires
        base >= 1,
        s.len() > 0,
        s.first() != 0,
    ensures
        place_value(base, s) >= pow(base as int, (s.len() - 1) as nat),
    decreases s.len(),
{
    reveal(pow);
    if s.len() == 1 {
    } else {
        assert(s.drop_last().first() == s.first());
        lemma_place_value_lower(base, s.drop_last());
        let b = base as int;
        let p = pow(b, (s.len() - 2) as nat);
        let v = place_value(base, s.drop_last()) as int;
        vstd::arithmetic::power::lemma_pow_positive(b, (s.len() - 2) as nat);
        assert(v * b >= p * b) by (nonlinear_arith)
            requires
                v >= p,
                b >= 1,
        ;
        assert(p * b == b * p) by (nonlinear_arith);
    }
}

/// A value below the base raised to `len` has at most `len` canonical digits.
pub proof fn lemma_digits_of_len_le(base: nat, n: nat, len: nat)
    requires
        2 <= base <= 256,
        n < pow(base as int, len),
    ensures
        digits_of(base, n).len() <= len,
{
    let d = digits_of(base, n);
    lemma_digits_of_shape(base, n);
    lemma_place_value_of_digits(base, n);
    if d.len() > len {
        lemma_place_value_lower(base, d);
        vstd::arithmetic::power::lemma_pow_increases(base, len, (d.len() - 1) as nat);
    }
}

/// A position that sees only zeros before it and a nonzero digit (or the
/// end) at it is the leading-zero count.
pub proof fn lemma_leading_zero_count_unique(s: Seq<u8>, z: int)
    requires
        0 <= z <= s.len(),
        forall|j: int| 0 <= j < z ==> s[j] == 0,
        z < s.len() ==> s[z] != 0,
    ensures
        leading_zero_count(s) == z,
{
    lemma_leading_zero_count(s);
    let w = leading_zero_count(s) as int;
    if w < z {
        assert(s[w] == 0);
    }
    if z < w {
        assert(s[z] == 0);
    }
}

/// One multiply-accumulate step of long arithmetic on a little-endian digit
/// string: afterwards the string's value is `mul` times its old value plus
/// `add`, still in canonical form (no trailing zero digit).
pub fn bignum_mul_add(digits: &mut Vec<u8>, base: u32, mul: u32, add: u32)
    requires
        2 <= base <= 256,
        2 <= mul <= 256,
        add < mul,
        digits_bounded(base as nat, old(digits)@),
        no_trailing_zero(old(digits)@),
    ensures
        place_value_le(base as nat, final(digits)@) == place_value_le(base as nat, old(digits)@)
            * mul as nat + add as nat,
        digits_bounded(base as nat, final(digits)@),
        no_trailing_zero(final(digits)@),
{
    let ghost orig = digits@;
    let ghost b = base as nat;
    let n = digits.len();
    let mut carry: u32 = add;
    let mut i: usize = 0;
    proof {
        reveal(pow);
        assert(orig.take(0) =~= Seq::<u8>::empty());
        assert(digits@.take(0) =~= Seq::<u8>::empty());
        assert(place_value_le(b, Seq::<u8>::empty()) == 0);
        assert(pow(base as int, 0) == 1);
        assert(0 * mul as nat == 0) by (nonlinear_arith);
    }
    while i < n
        invariant
            2 <= base <= 256,
            2 <= mul <= 256,
            b == base as nat,
            n == orig.len(),
            digits@.len() == n,
            0 <= i <= n,
            carry < mul,
            digits_bounded(b, orig),
            no_trailing_zero(orig),
            forall|j: int| i <= j < n ==> digits@[j] == orig[j],
            forall|j: int| 0 <= j < i ==> digits@[j] < base,
            place_value_le(b, digits@.take(i as int)) + carry as nat * pow(base as int, i as nat)
                == place_value_le(b, orig.take(i as int)) * mul as nat + add as nat,
            (i == n && carry == 0 && n > 0) ==> digits@.last() != 0,
        decreases n - i,
    {
        let d = digits[i];
        proof {
            assert(d == orig[i as int]);
            assert(d < base);
            assert(d as int * mul as int <= 255 * 256) by (nonlinear_arith)
                requires
                    d <= 255,
                    mul <= 256,
            ;
        }
        let t = d as u32 * mul + carry;
        let nd_u32 = t % base;
        let q = t / base;
        proof {
            reveal(pow);
            lemma_fundamental_div_mod(t as int, base as int);
            vstd::arithmetic::div_mod::lemma_mod_bound(t as int, base as int);
            assert(t <= 255 * 256 + 255) by (nonlinear_arith)
                requires
                    d < base,
                    base <= 256,
                    mul <= 256,
                    carry < mul,
                    t == d as u32 * mul + carry,
            ;
            assert(q <= mul - 1) by (nonlinear_arith)
                requires
                    d < base,
                    carry < mul,
                    2 <= base,
                    t == d as u32 * mul + carry,
                    q == t / base,
            ;
        }
        let nd = nd_u32 as u8;
        let ghost pre = digits@;
        digits.set(i, nd);
        proof {
            reveal(pow);
            let p = pow(base as int, i as nat);
            vstd::arithmetic::power::lemma_pow_positive(base as int, i as nat);
            assert(digits@.take(i as int) =~= pre.take(i as int));
            assert(digits@.take(i as int + 1) =~= pre.take(i as int).push(nd));
            assert(orig.take(i as int + 1) =~= orig.take(i as int).push(orig[i as int]));
            lemma_place_value_le_snoc(b, pre.take(i as int), nd);
            lemma_place_value_le_snoc(b, orig.take(i as int), orig[i as int]);
            assert(nd as nat * p + q as nat * pow(base as int, (i + 1) as nat) == (d as u32 * mul
                + carry) as nat * p) by (nonlinear_arith)
                requires
                    pow(base as int, (i + 1) as nat) == base * p,
                    p >= 1,
                    nd as int == (d as u32 * mul + carry) % (base as int),
                    q as int == (d as u32 * mul + carry) as int / (base as int),
                    base >= 2,
            ;
            assert((place_value_le(b, orig.take(i as int)) + d as nat * p) * mul as nat
                == place_value_le(b, orig.take(i as int)) * mul as nat + d as nat * mul as nat * p)
                by (nonlinear_arith);
            assert(d as nat * mul as nat * p + carry as nat * p == (d as u32 * mul + carry) as nat
                * p) by (nonlinear_arith);
            if i + 1 == n && q == 0 && n > 0 {
                lemma_fundamental_div_mod(t as int, base as int);
                vstd::arithmetic::div_mod::lemma_mod_bound(t as int, base as int);
                assert(q as int == t as int / base as int);
                assert(q == 0);
                assert(t as int == base as int * (q as int) + t as int % base as int);
                assert(base as int * (q as int) == 0) by (nonlinear_arith)
                    requires
                        q == 0,
                ;
                assert(t as int == t as int % base as int);
                assert(t < base);
                assert(nd_u32 == t);
                assert(d == orig.last());
                assert(t >= mul) by (nonlinear_arith)
                    requires
                        d >= 1,
                        mul >= 2,
                        t == d as u32 * mul + carry,
                ;
                assert(nd as int == t);
                assert(digits@.last() == nd);
            }
        }
        carry = q;
        i = i + 1;
    }
    proof {
        assert(digits@.take(n as int) =~= digits@);
        assert(orig.take(n as int) =~= orig);
    }
    while carry > 0
        invariant
            2 <= base <= 256,
            2 <= mul <= 256,
            b == base as nat,
            carry < 65536,
            digits_bounded(b, digits@),
            place_value_le(b, digits@) + carry as nat * pow(base as int, digits@.len())
                == place_value_le(b, orig) * mul as nat + add as nat,
            carry == 0 ==> no_trailing_zero(digits@),
        decreases carry,
    {
        proof {
            lemma_div_decreases(carry as int, base as int);
            vstd::arithmetic::div_mod::lemma_mod_bound(carry as int, base as int);
            lemma_fundamental_div_mod(carry as int, base as int);
        }
        let nd = (carry % base) as u8;
        let q = carry / base;
        proof {
            assert(carry as int == base as int * (q as int) + nd as int);
            if q == 0 {
                assert(carry < base);
            }
        }
        let ghost pre = digits@;
        digits.push(nd);
        proof {
            reveal(pow);
            lemma_fundamental_div_mod(carry as int, base as int);
            let p = pow(base as int, pre.len());
            vstd::arithmetic::power::lemma_pow_positive(base as int, pre.len());
            lemma_place_value_le_snoc(b, pre, nd);
            assert(nd as nat * p + q as nat * pow(base as int, digits@.len()) == carry as nat * p)
                by (nonlinear_arith)
                requires
                    pow(base as int, digits@.len()) == base * p,
                    p >= 1,
                    nd as int == carry as int % (base as int),
                    q as int == carry as int / (base as int),
                    base >= 2,
            ;
            if q == 0 {
                assert(carry < base);
                assert(nd as int == carry);
                assert(digits@.last() == nd);
            }
        }
        carry = q;
    }
}

} // verus!
