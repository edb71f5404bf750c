//! Arbitrary-precision natural numbers.
//!
//! A `BigNat` holds its value as little-endian base-2^32 digits with no
//! trailing zero digit. The arithmetic itself is carried out by
//! `num_bigint::BigUint`; every call into that crate goes through one small
//! trusted function below that converts the digits in and out.
use num_bigint::BigUint;
use vstd::arithmetic::div_mod::*;
use vstd::arithmetic::mul::*;
use vstd::prelude::*;

verus! {

/// The digit radix, 2^32.
pub open spec fn radix() -> nat {
    0x1_0000_0000
}

/// `radix()` raised to the power `n`.
pub open spec fn radix_pow(n: nat) -> nat
    decreases n,
{
    if n == 0 {
        1
    } else {
        radix() * radix_pow((n - 1) as nat)
    }
}

/// The value of a little-endian sequence of base-2^32 digits.
pub open spec fn digits_value(d: Seq<u32>) -> nat
    decreases d.len(),
{
    if d.len() == 0 {
        0
    } else {
        d[0] as nat + radix() * digits_value(d.drop_first())
    }
}

/// No trailing (most significant) zero digit: every value has exactly one
/// such digit sequence.
pub open spec fn is_normalized(d: Seq<u32>) -> bool {
    d.len() == 0 || d[d.len() - 1] != 0
}

/// `2^n`, written without the opaque `pow` so that it unfolds freely.
pub open spec fn two_pow(n: nat) -> nat
    decreases n,
{
    if n == 0 {
        1
    } else {
        2 * two_pow((n - 1) as nat)
    }
}

/// `b^e` over the naturals.
pub open spec fn nat_pow(b: nat, e: nat) -> nat
    decreases e,
{
    if e == 0 {
        1
    } else {
        b * nat_pow(b, (e - 1) as nat)
    }
}

/// Bitwise OR of two naturals.
pub open spec fn nat_bitor(a: nat, b: nat) -> nat
    decreases a + b,
{
    if a == 0 {
        b
    } else if b == 0 {
        a
    } else {
        (if a % 2 == 1 || b % 2 == 1 {
            1nat
        } else {
            0nat
        }) + 2 * nat_bitor(a / 2, b / 2)
    }
}

/// Bitwise AND of two naturals.
pub open spec fn nat_bitand(a: nat, b: nat) -> nat
    decreases a + b,
{
    if a == 0 || b == 0 {
        0
    } else {
        (if a % 2 == 1 && b % 2 == 1 {
            1nat
        } else {
            0nat
        }) + 2 * nat_bitand(a / 2, b / 2)
    }
}

/// The value of a big-endian byte sequence.
pub open spec fn bytes_be_value(s: Seq<u8>) -> nat
    decreases s.len(),
{
    if s.len() == 0 {
        0
    } else {
        bytes_be_value(s.drop_last()) * 256 + s[s.len() - 1] as nat
    }
}

/// The decimal digit character for `d < 10`.
pub open spec fn decimal_char(d: nat) -> char {
    if d == 0 {
        '0'
    } else if d == 1 {
        '1'
    } else if d == 2 {
        '2'
    } else if d == 3 {
        '3'
    } else if d == 4 {
        '4'
    } else if d == 5 {
        '5'
    } else if d == 6 {
        '6'
    } else if d == 7 {
        '7'
    } else if d == 8 {
        '8'
    } else {
        '9'
    }
}

/// The decimal representation of `n`, without leading zeros ("0" for zero).
pub open spec fn decimal(n: nat) -> Seq<char>
    decreases n,
{
    if n < 10 {
        seq![decimal_char(n)]
    } else {
        decimal(n / 10).push(decimal_char(n % 10))
    }
}

pub proof fn lemma_radix_pow_pos(n: nat)
    ensures
        radix_pow(n) >= 1,
    decreases n,
{
    if n > 0 {
        lemma_radix_pow_pos((n - 1) as nat);
        lemma_mul_increases(radix() as int, radix_pow((n - 1) as nat) as int);
    }
}

pub proof fn lemma_radix_pow_monotone(a: nat, b: nat)
    requires
        a <= b,
    ensures
        radix_pow(a) <= radix_pow(b),
    decreases b,
{
    if a < b {
        lemma_radix_pow_monotone(a, (b - 1) as nat);
        lemma_radix_pow_pos((b - 1) as nat);
        lemma_mul_increases(radix() as int, radix_pow((b - 1) as nat) as int);
    }
}

/// Appending a most significant digit adds it at the right weight.
pub proof fn lemma_digits_value_push(d: Seq<u32>, x: u32)
    ensures
        digits_value(d.push(x)) == digits_value(d) + radix_pow(d.len()) * x,
    decreases d.len(),
{
    if d.len() == 0 {
        assert(d.push(x).drop_first() =~= Seq::<u32>::empty());
        assert(digits_value(Seq::<u32>::empty()) == 0);
        assert(radix_pow(0) == 1);
        assert(d.push(x)[0] == x);
        assert(digits_value(d.push(x)) == x as nat + radix() * digits_value(d.push(x).drop_first()));
    } else {
        let t = d.drop_first();
        assert(d.push(x).drop_first() =~= t.push(x));
        assert(d.push(x)[0] == d[0]);
        lemma_digits_value_push(t, x);
        assert(radix_pow(d.len()) == radix() * radix_pow(t.len()));
        assert(radix() * (digits_value(t) + radix_pow(t.len()) * x) == radix() * digits_value(t)
            + (radix() * radix_pow(t.len())) * x) by (nonlinear_arith);
        assert(digits_value(d.push(x)) == d[0] as nat + radix() * digits_value(t.push(x)));
        assert(digits_value(d) == d[0] as nat + radix() * digits_value(t));
    }
}

/// Removing the most significant digit.
pub proof fn lemma_digits_value_drop_last(d: Seq<u32>)
    requires
        d.len() > 0,
    ensures
        digits_value(d) == digits_value(d.drop_last()) + radix_pow((d.len() - 1) as nat) * d[d.len()
            - 1],
{
    assert(d.drop_last().push(d[d.len() - 1]) =~= d);
    lemma_digits_value_push(d.drop_last(), d[d.len() - 1]);
}

/// A digit sequence of length `n` is below `radix^n`.
pub proof fn lemma_digits_value_upper(d: Seq<u32>)
    ensures
        digits_value(d) < radix_pow(d.len()),
    decreases d.len(),
{
    if d.len() > 0 {
        let t = d.drop_first();
        lemma_digits_value_upper(t);
        assert(d[0] as nat + radix() * digits_value(t) < radix() * radix_pow(t.len()))
            by (nonlinear_arith)
            requires
                d[0] < radix(),
                digits_value(t) < radix_pow(t.len()),
        ;
    }
}

/// A normalized digit sequence of length `n > 0` is at least `radix^(n-1)`.
pub proof fn lemma_digits_value_lower(d: Seq<u32>)
    requires
        is_normalized(d),
        d.len() > 0,
    ensures
        digits_value(d) >= radix_pow((d.len() - 1) as nat),
{
    lemma_digits_value_drop_last(d);
    lemma_radix_pow_pos((d.len() - 1) as nat);
    lemma_mul_increases(d[d.len() - 1] as int, radix_pow((d.len() - 1) as nat) as int);
}

/// Two normalized sequences with the same value are equal.
pub proof fn lemma_normalized_unique(a: Seq<u32>, b: Seq<u32>)
    requires
        is_normalized(a),
        is_normalized(b),
        digits_value(a) == digits_value(b),
    ensures
        a == b,
    decreases a.len(),
{
    if a.len() == 0 {
        if b.len() > 0 {
            lemma_digits_value_lower(b);
            lemma_radix_pow_pos((b.len() - 1) as nat);
        }
        assert(a =~= b);
    } else if b.len() == 0 {
        lemma_digits_value_lower(a);
        lemma_radix_pow_pos((a.len() - 1) as nat);
    } else {
        let ta = a.drop_first();
        let tb = b.drop_first();
        assert(a[0] as nat == digits_value(a) % radix()) by {
            lemma_fundamental_div_mod_converse(
                digits_value(a) as int,
                radix() as int,
                digits_value(ta) as int,
                a[0] as int,
            );
        }
        assert(b[0] as nat == digits_value(b) % radix()) by {
            lemma_fundamental_div_mod_converse(
                digits_value(b) as int,
                radix() as int,
                digits_value(tb) as int,
                b[0] as int,
            );
        }
        assert(digits_value(ta) == digits_value(tb)) by (nonlinear_arith)
            requires
                a[0] + radix() * digits_value(ta) == b[0] + radix() * digits_value(tb),
                a[0] == b[0],
                radix() > 0,
        ;
        assert(is_normalized(ta)) by {
            if ta.len() > 0 {
                assert(ta[ta.len() - 1] == a[a.len() - 1]);
            }
        }
        assert(is_normalized(tb)) by {
            if tb.len() > 0 {
                assert(tb[tb.len() - 1] == b[b.len() - 1]);
            }
        }
        lemma_normalized_unique(ta, tb);
        assert(a =~= seq![a[0]] + ta);
        assert(b =~= seq![b[0]] + tb);
    }
}

// ---------------------------------------------------------------------------
// Trusted calls into `num_bigint`. Each converts the digit vectors with
// `BigUint::from_slice` and hands the result back with `to_u32_digits`, which
// yields the normalized little-endian base-2^32 digits of the value.
// ---------------------------------------------------------------------------
/// `BigUint` addition (`Add`): the digits of `a + b`.
#[verifier::external_body]
fn biguint_add(a: &Vec<u32>, b: &Vec<u32>) -> (r: Vec<u32>)
    ensures
        digits_value(r@) == digits_value(a@) + digits_value(b@),
        is_normalized(r@),
{
    (BigUint::from_slice(a) + BigUint::from_slice(b)).to_u32_digits()
}

/// `BigUint` subtraction (`Sub`), which panics on underflow: the digits of `a - b`.
#[verifier::external_body]
fn biguint_sub(a: &Vec<u32>, b: &Vec<u32>) -> (r: Vec<u32>)
    requires
        digits_value(b@) <= digits_value(a@),
    ensures
        digits_value(r@) == digits_value(a@) - digits_value(b@),
        is_normalized(r@),
{
    (BigUint::from_slice(a) - BigUint::from_slice(b)).to_u32_digits()
}

/// `BigUint` multiplication (`Mul`): the digits of `a * b`.
#[verifier::external_body]
fn biguint_mul(a: &Vec<u32>, b: &Vec<u32>) -> (r: Vec<u32>)
    ensures
        digits_value(r@) == digits_value(a@) * digits_value(b@),
        is_normalized(r@),
{
    (BigUint::from_slice(a) * BigUint::from_slice(b)).to_u32_digits()
}

/// `BigUint` division (`Div`), which panics on a zero divisor: the digits of `a / b`.
#[verifier::external_body]
fn biguint_div(a: &Vec<u32>, b: &Vec<u32>) -> (r: Vec<u32>)
    requires
        digits_value(b@) > 0,
    ensures
        digits_value(r@) == digits_value(a@) / digits_value(b@),
        is_normalized(r@),
{
    (BigUint::from_slice(a) / BigUint::from_slice(b)).to_u32_digits()
}

/// `BigUint` remainder (`Rem`), which panics on a zero divisor: the digits of `a % b`.
#[verifier::external_body]
fn biguint_rem(a: &Vec<u32>, b: &Vec<u32>) -> (r: Vec<u32>)
    requires
        digits_value(b@) > 0,
    ensures
        digits_value(r@) == digits_value(a@) % digits_value(b@),
        is_normalized(r@),
{
    (BigUint::from_slice(a) % BigUint::from_slice(b)).to_u32_digits()
}

/// `BigUint::pow`: the digits of `a^e`.
#[verifier::external_body]
fn biguint_pow(a: &Vec<u32>, e: u32) -> (r: Vec<u32>)
    ensures
        digits_value(r@) == nat_pow(digits_value(a@), e as nat),
        is_normalized(r@),
{
    BigUint::from_slice(a).pow(e).to_u32_digits()
}

/// `BigUint::modpow`, which panics on a zero modulus: the digits of `a^e % m`.
#[verifier::external_body]
fn biguint_modpow(a: &Vec<u32>, e: &Vec<u32>, m: &Vec<u32>) -> (r: Vec<u32>)
    requires
        digits_value(m@) > 0,
    ensures
        digits_value(r@) == nat_pow(digits_value(a@), digits_value(e@)) % digits_value(m@),
        is_normalized(r@),
{
    BigUint::from_slice(a).modpow(&BigUint::from_slice(e), &BigUint::from_slice(m)).to_u32_digits()
}

/// `BigUint` left shift (`Shl<u32>`): the digits of `a * 2^k`.
#[verifier::external_body]
fn biguint_shl(a: &Vec<u32>, k: u32) -> (r: Vec<u32>)
    ensures
        digits_value(r@) == digits_value(a@) * two_pow(k as nat),
        is_normalized(r@),
{
    (BigUint::from_slice(a) << k).to_u32_digits()
}

/// `BigUint` right shift (`Shr<u32>`): the digits of `a / 2^k`.
#[verifier::external_body]
fn biguint_shr(a: &Vec<u32>, k: u32) -> (r: Vec<u32>)
    ensures
        digits_value(r@) == digits_value(a@) / two_pow(k as nat),
        is_normalized(r@),
{
    (BigUint::from_slice(a) >> k).to_u32_digits()
}

/// `BigUint` bitwise OR (`BitOr`).
#[verifier::external_body]
fn biguint_bitor(a: &Vec<u32>, b: &Vec<u32>) -> (r: Vec<u32>)
    ensures
        digits_value(r@) == nat_bitor(digits_value(a@), digits_value(b@)),
        is_normalized(r@),
{
    (BigUint::from_slice(a) | BigUint::from_slice(b)).to_u32_digits()
}

/// `BigUint` bitwise AND (`BitAnd`).
#[verifier::external_body]
fn biguint_bitand(a: &Vec<u32>, b: &Vec<u32>) -> (r: Vec<u32>)
    ensures
        digits_value(r@) == nat_bitand(digits_value(a@), digits_value(b@)),
        is_normalized(r@),
{
    (BigUint::from_slice(a) & BigUint::from_slice(b)).to_u32_digits()
}

/// `BigUint` comparison (`PartialOrd::lt`).
#[verifier::external_body]
fn biguint_lt(a: &Vec<u32>, b: &Vec<u32>) -> (r: bool)
    ensures
        r == (digits_value(a@) < digits_value(b@)),
{
    BigUint::from_slice(a) < BigUint::from_slice(b)
}

/// `BigUint` equality (`PartialEq::eq`).
#[verifier::external_body]
fn biguint_eq(a: &Vec<u32>, b: &Vec<u32>) -> (r: bool)
    ensures
        r == (digits_value(a@) == digits_value(b@)),
{
    BigUint::from_slice(a) == BigUint::from_slice(b)
}

/// `BigUint::bits`: the number of bits needed to write the value, 0 for zero.
#[verifier::external_body]
fn biguint_bits(a: &Vec<u32>) -> (r: u64)
    ensures
        digits_value(a@) < two_pow(r as nat),
        r > 0 ==> two_pow((r - 1) as nat) <= digits_value(a@),
{
    BigUint::from_slice(a).bits()
}

/// `BigUint::to_bytes_be`: the big-endian bytes, `[0]` for zero and without
/// leading zero bytes otherwise.
#[verifier::external_body]
fn biguint_to_bytes_be(a: &Vec<u32>) -> (r: Vec<u8>)
    ensures
        bytes_be_value(r@) == digits_value(a@),
        digits_value(a@) == 0 ==> r@ == seq![0u8],
        digits_value(a@) > 0 ==> r@.len() > 0 && r@[0] != 0,
{
    BigUint::from_slice(a).to_bytes_be()
}

/// `BigUint::from_bytes_be`: the value of big-endian bytes.
#[verifier::external_body]
fn biguint_from_bytes_be(bytes: &[u8]) -> (r: Vec<u32>)
    ensures
        digits_value(r@) == bytes_be_value(bytes@),
        is_normalized(r@),
{
    BigUint::from_bytes_be(bytes).to_u32_digits()
}

/// `BigUint`'s `Display`, through `to_string`: the decimal digits.
#[verifier::external_body]
fn biguint_to_string(a: &Vec<u32>) -> (r: String)
    ensures
        r@ == decimal(digits_value(a@)),
{
    BigUint::from_slice(a).to_string()
}

/// An arbitrary-precision natural number.
#[derive(Debug, PartialEq, Eq)]
pub struct BigNat {
    digits: Vec<u32>,
}

impl Clone for BigNat {
    fn clone(&self) -> (r: BigNat)
        ensures
            r@ == self@,
    {
        proof {
            use_type_invariant(self);
        }
        let d = self.digits.clone();
        proof {
            assert(d@ =~= self.digits@);
        }
        BigNat { digits: d }
    }
}

impl View for BigNat {
    type V = nat;

    closed spec fn view(&self) -> nat {
        digits_value(self.digits@)
    }
}

impl BigNat {
    #[verifier::type_invariant]
    closed spec fn inv(self) -> bool {
        is_normalized(self.digits@)
    }

    fn from_digits(digits: Vec<u32>) -> (r: BigNat)
        requires
            is_normalized(digits@),
        ensures
            r@ == digits_value(digits@),
    {
        BigNat { digits }
    }

    /// Zero.
    pub fn zero() -> (r: BigNat)
        ensures
            r@ == 0,
    {
        BigNat::from_digits(Vec::new())
    }

    /// The value of a `u128`.
    pub fn from_u128(v: u128) -> (r: BigNat)
        ensures
            r@ == v,
    {
        let mut digits: Vec<u32> = Vec::new();
        let mut rest: u128 = v;
        proof {
            assert(digits@ =~= Seq::<u32>::empty());
            assert(digits_value(digits@) == 0);
            assert(radix_pow(0) == 1);
            assert(digits.len() == 0);
        }
        while rest > 0
            invariant
                digits_value(digits@) + radix_pow(digits.len() as nat) * rest == v,
                digits.len() == 0 || digits@[digits.len() - 1] != 0 || rest > 0,
            decreases rest,
        {
            let d: u32 = (rest % 0x1_0000_0000) as u32;
            proof {
                lemma_digits_value_push(digits@, d);
                lemma_fundamental_div_mod(rest as int, 0x1_0000_0000);
                assert(radix_pow((digits.len() + 1) as nat) == radix() * radix_pow(
                    digits.len() as nat,
                ));
                assert(radix_pow(digits.len() as nat) * rest == radix_pow(digits.len() as nat) * d
                    + (radix() * radix_pow(digits.len() as nat)) * (rest / 0x1_0000_0000))
                    by (nonlinear_arith)
                    requires
                        rest == 0x1_0000_0000 * (rest / 0x1_0000_0000) + d,
                        radix() == 0x1_0000_0000,
                ;
            }
            digits.push(d);
            rest = rest / 0x1_0000_0000;
        }
        BigNat::from_digits(digits)
    }

    /// The value of a `u64`.
    pub fn from_u64(v: u64) -> (r: BigNat)
        ensures
            r@ == v,
    {
        BigNat::from_u128(v as u128)
    }

    /// The value, if it fits in a `u128`.
    pub fn to_u128(&self) -> (r: Option<u128>)
        ensures
            r == (if self@ <= u128::MAX {
                Some(self@ as u128)
            } else {
                None::<u128>
            }),
    {
        proof {
            use_type_invariant(self);
        }
        let n = self.digits.len();
        if n > 4 {
            proof {
                lemma_digits_value_lower(self.digits@);
                lemma_radix_pow_monotone(4, (n - 1) as nat);
                assert(radix_pow(4) == 0x1_0000_0000_0000_0000_0000_0000_0000_0000) by {
                    reveal_with_fuel(radix_pow, 5);
                }
            }
            return None;
        }
        let mut acc: u128 = 0;
        let mut i: usize = n;
        while i > 0
            invariant
                i <= n <= 4,
                n == self.digits.len(),
                acc == digits_value(self.digits@.subrange(i as int, n as int)),
                acc < radix_pow((n - i) as nat),
            decreases i,
        {
            i = i - 1;
            let ghost tail = self.digits@.subrange(i + 1, n as int);
            let ghost cur = self.digits@.subrange(i as int, n as int);
            proof {
                assert(cur.drop_first() =~= tail);
                assert(radix_pow((n - i) as nat) == radix() * radix_pow((n - i - 1) as nat));
                assert(radix_pow(3) == 0x1_0000_0000_0000_0000_0000_0000) by {
                    reveal_with_fuel(radix_pow, 4);
                }
                lemma_radix_pow_monotone((n - i - 1) as nat, 3);
                assert(acc * 0x1_0000_0000 + self.digits@[i as int] < radix() * radix_pow(
                    (n - i - 1) as nat,
                )) by (nonlinear_arith)
                    requires
                        acc < radix_pow((n - i - 1) as nat),
                        self.digits@[i as int] < 0x1_0000_0000,
                        radix() == 0x1_0000_0000,
                ;
                assert(acc * 0x1_0000_0000 + self.digits@[i as int] <= u128::MAX)
                    by (nonlinear_arith)
                    requires
                        acc < radix_pow((n - i - 1) as nat),
                        radix_pow((n - i - 1) as nat) <= 0x1_0000_0000_0000_0000_0000_0000,
                        self.digits@[i as int] < 0x1_0000_0000,
                ;
            }
            acc = acc * 0x1_0000_0000 + self.digits[i] as u128;
        }
        proof {
            assert(self.digits@.subrange(0, n as int) =~= self.digits@);
        }
        Some(acc)
    }

    /// The value, if it fits in a `u64`.
    pub fn to_u64(&self) -> (r: Option<u64>)
        ensures
            r == (if self@ <= u64::MAX {
                Some(self@ as u64)
            } else {
                None::<u64>
            }),
    {
        match self.to_u128() {
            Some(v) => {
                if v <= u64::MAX as u128 {
                    Some(v as u64)
                } else {
                    None
                }
            },
            None => None,
        }
    }

    /// Whether the value is zero.
    pub fn is_zero(&self) -> (r: bool)
        ensures
            r == (self@ == 0),
    {
        proof {
            use_type_invariant(self);
            if self.digits.len() > 0 {
                lemma_digits_value_lower(self.digits@);
                lemma_radix_pow_pos((self.digits.len() - 1) as nat);
            }
        }
        self.digits.len() == 0
    }

    /// `self + other`.
    pub fn add(&self, other: &BigNat) -> (r: BigNat)
        ensures
            r@ == self@ + other@,
    {
        BigNat::from_digits(biguint_add(&self.digits, &other.digits))
    }

    /// `self - other`; the subtraction must not go below zero.
    pub fn sub(&self, other: &BigNat) -> (r: BigNat)
        requires
            other@ <= self@,
        ensures
            r@ == self@ - other@,
    {
        BigNat::from_digits(biguint_sub(&self.digits, &other.digits))
    }

    /// `self * other`.
    pub fn mul(&self, other: &BigNat) -> (r: BigNat)
        ensures
            r@ == self@ * other@,
    {
        BigNat::from_digits(biguint_mul(&self.digits, &other.digits))
    }

    /// `self / other`, rounded down.
    pub fn div(&self, other: &BigNat) -> (r: BigNat)
        requires
            other@ > 0,
        ensures
            r@ == self@ / other@,
    {
        BigNat::from_digits(biguint_div(&self.digits, &other.digits))
    }

    /// `self % other`.
    pub fn rem(&self, other: &BigNat) -> (r: BigNat)
        requires
            other@ > 0,
        ensures
            r@ == self@ % other@,
    {
        BigNat::from_digits(biguint_rem(&self.digits, &other.digits))
    }

    /// `self^e`.
    pub fn pow(&self, e: u32) -> (r: BigNat)
        ensures
            r@ == nat_pow(self@, e as nat),
    {
        BigNat::from_digits(biguint_pow(&self.digits, e))
    }

    /// `self^e % m`.
    pub fn modpow(&self, e: &BigNat, m: &BigNat) -> (r: BigNat)
        requires
            m@ > 0,
        ensures
            r@ == nat_pow(self@, e@) % m@,
    {
        BigNat::from_digits(biguint_modpow(&self.digits, &e.digits, &m.digits))
    }

    /// `self << k`, that is `self * 2^k`.
    pub fn shl(&self, k: u32) -> (r: BigNat)
        ensures
            r@ == self@ * two_pow(k as nat),
    {
        BigNat::from_digits(biguint_shl(&self.digits, k))
    }

    /// `self >> k`, that is `self / 2^k`.
    pub fn shr(&self, k: u32) -> (r: BigNat)
        ensures
            r@ == self@ / two_pow(k as nat),
    {
        BigNat::from_digits(biguint_shr(&self.digits, k))
    }

    /// Bitwise OR.
    pub fn bitor(&self, other: &BigNat) -> (r: BigNat)
        ensures
            r@ == nat_bitor(self@, other@),
    {
        BigNat::from_digits(biguint_bitor(&self.digits, &other.digits))
    }

    /// Bitwise AND.
    pub fn bitand(&self, other: &BigNat) -> (r: BigNat)
        ensures
            r@ == nat_bitand(self@, other@),
    {
        BigNat::from_digits(biguint_bitand(&self.digits, &other.digits))
    }

    /// `self < other`.
    pub fn lt(&self, other: &BigNat) -> (r: bool)
        ensures
            r == (self@ < other@),
    {
        biguint_lt(&self.digits, &other.digits)
    }

    /// `self == other`.
    pub fn equals(&self, other: &BigNat) -> (r: bool)
        ensures
            r == (self@ == other@),
    {
        biguint_eq(&self.digits, &other.digits)
    }

    /// The number of bits needed to write the value; 0 for zero.
    pub fn bits(&self) -> (r: u64)
        ensures
            self@ < two_pow(r as nat),
            r > 0 ==> two_pow((r - 1) as nat) <= self@,
    {
        biguint_bits(&self.digits)
    }

    /// The big-endian bytes: `[0]` for zero, no leading zero byte otherwise.
    pub fn to_bytes_be(&self) -> (r: Vec<u8>)
        ensures
            bytes_be_value(r@) == self@,
            self@ == 0 ==> r@ == seq![0u8],
            self@ > 0 ==> r@.len() > 0 && r@[0] != 0,
    {
        biguint_to_bytes_be(&self.digits)
    }

    /// The value of big-endian bytes.
    pub fn from_bytes_be(bytes: &[u8]) -> (r: BigNat)
        ensures
            r@ == bytes_be_value(bytes@),
    {
        BigNat::from_digits(biguint_from_bytes_be(bytes))
    }

    /// The decimal representation.
    pub fn to_decimal_string(&self) -> (r: String)
        ensures
            r@ == decimal(self@),
    {
        biguint_to_string(&self.digits)
    }

    /// The little-endian base-2^32 digits, without trailing zero digit.
    pub fn to_u32_digits(&self) -> (r: Vec<u32>)
        ensures
            digits_value(r@) == self@,
            is_normalized(r@),
    {
        proof {
            use_type_invariant(self);
        }
        self.digits.clone()
    }

    /// The number with the given little-endian base-2^32 digits.
    pub fn from_u32_digits(digits: &Vec<u32>) -> (r: BigNat)
        ensures
            r@ == digits_value(digits@),
    {
        let mut d = digits.clone();
        while d.len() > 0 && d[d.len() - 1] == 0
            invariant
                digits_value(d@) == digits_value(digits@),
            decreases d.len(),
        {
            proof {
                lemma_digits_value_drop_last(d@);
            }
            d.pop();
        }
        BigNat::from_digits(d)
    }
}

} // verus!
