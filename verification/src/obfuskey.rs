//! Obfuscation of integers into fixed-length keys and back.
use vstd::arithmetic::div_mod::*;
use vstd::arithmetic::mul::*;
use vstd::prelude::*;

use crate::alphabet::{valid_alphabet, Alphabet};
use crate::bignat::{decimal, nat_pow, two_pow, BigNat};
use crate::decode::{decode_big, decode_u128, decode_u128_spec};
use crate::encode::{encode_big, encode_u128};
use crate::error::{result_view, ErrorSpec, ObfuskeyError};
use crate::math::{
    generate_prime, mod_inv_big, mod_inv_u128, mul_mod_u128, no_inverse_message,
    prime_search_fits, prime_size_message, prime_target,
};
use crate::numeral::{all_known, decode_spec, encode_spec};
use crate::primes::{gcd, is_next_prime};
use crate::text::{str_chars, string_push};

verus! {

/// The default number of characters in a key.
pub const DEFAULT_KEY_LENGTH: u32 = 6;

/// The default prime multiplier, the golden ratio 1.618033988749894848 as
/// an `f64`, in fixed point with scale `10^18`.
pub const PRIME_MULTIPLIER_SCALED: u64 = 1618033988749894912;

/// The mathematical state of an `Obfuskey`.
pub struct ObfuskeyModel {
    /// The characters of the alphabet.
    pub alphabet: Seq<char>,
    /// The number of characters of every key.
    pub key_length: nat,
    /// The multiplier, once it is known.
    pub multiplier: Option<nat>,
    /// The prime multiplier factor, in fixed point with scale `10^18`.
    pub multiplier_scaled: nat,
}

/// The message of the error for a value above the maximum.
pub open spec fn maximum_value_message(max: nat) -> Seq<char> {
    "The maximum value possible is "@ + decimal(max)
}

/// The message of the error for a value that does not fit in a `u64`.
pub open spec fn u64_overflow_message() -> Seq<char> {
    "Value does not fit in u64."@
}

/// `s` preceded by as many copies of `c` as make it `len` characters long.
pub open spec fn pad_spec(s: Seq<char>, c: char, len: nat) -> Seq<char> {
    if s.len() >= len {
        s
    } else {
        Seq::new((len - s.len()) as nat, |i: int| c) + s
    }
}

/// Whether an optional multiplier is given and even.
pub open spec fn even_multiplier(multiplier: Option<u64>) -> bool {
    match multiplier {
        Some(m) => m % 2 == 0,
        None => false,
    }
}

/// `x` is the inverse of `mu` modulo `m`.
pub open spec fn is_inverse_mod(mu: nat, x: nat, m: nat) -> bool {
    x < m && (mu * x) % m == 1nat % m
}

/// The inverse of `mu` modulo `m`, where one exists.
pub open spec fn inverse_of(mu: nat, m: nat) -> nat {
    choose|x: nat| is_inverse_mod(mu, x, m)
}

impl ObfuskeyModel {
    pub open spec fn base(self) -> nat {
        self.alphabet.len()
    }

    /// `base^key_length`: keys write the numbers below it.
    pub open spec fn modulus(self) -> nat {
        nat_pow(self.base(), self.key_length)
    }

    /// The largest value that can be obfuscated.
    pub open spec fn maximum(self) -> nat {
        (self.modulus() - 1) as nat
    }

    /// The number above which a missing multiplier is searched.
    pub open spec fn target(self) -> nat {
        prime_target(self.base(), self.key_length, self.multiplier_scaled)
    }

    /// The multiplier that generation yields: the next prime above the target.
    pub open spec fn generated_multiplier(self) -> nat {
        choose|p: nat| is_next_prime(self.target(), p)
    }

    /// The multiplier in use, generating it if it is missing.
    pub open spec fn multiplier_result(self) -> Result<nat, ErrorSpec> {
        match self.multiplier {
            Some(m) => Ok(m),
            None => if self.target() >= two_pow(512) {
                Err(ErrorSpec::MaximumValue(prime_size_message()))
            } else {
                Ok(self.generated_multiplier())
            },
        }
    }

    /// The state after the multiplier has been made sure of.
    pub open spec fn after_ensure(self) -> ObfuskeyModel {
        match self.multiplier_result() {
            Ok(m) => ObfuskeyModel { multiplier: Some(m), ..self },
            Err(_) => self,
        }
    }

    /// Whether generating a missing multiplier can go ahead: the prime
    /// search above the target does not overflow.
    pub open spec fn can_generate(self) -> bool {
        self.multiplier is Some || prime_search_fits(self.target())
    }

    /// The key of zero: the first character, `key_length` times.
    pub open spec fn zero_key(self) -> Seq<char> {
        Seq::new(self.key_length, |i: int| self.alphabet[0])
    }

    /// The key that writes `x`, padded to `key_length` with the first character.
    pub open spec fn key_for(self, x: nat) -> Seq<char> {
        pad_spec(encode_spec(x, self.alphabet), self.alphabet[0], self.key_length)
    }

    /// What `get_key_u64` returns.
    pub open spec fn get_key_u64(self, v: nat) -> Result<Seq<char>, ErrorSpec> {
        match self.multiplier_result() {
            Err(e) => Err(e),
            Ok(mu) => if v > self.maximum() {
                Err(ErrorSpec::MaximumValue(maximum_value_message(self.maximum())))
            } else if v == 0 {
                Ok(self.zero_key())
            } else {
                Ok(self.key_for((v * mu) % self.modulus()))
            },
        }
    }

    /// What `get_key_big` returns.
    pub open spec fn get_key_big(self, v: nat) -> Result<Seq<char>, ErrorSpec> {
        if v > self.maximum() {
            Err(ErrorSpec::MaximumValue(maximum_value_message(self.maximum())))
        } else if v == 0 {
            Ok(self.zero_key())
        } else {
            match self.multiplier_result() {
                Err(e) => Err(e),
                Ok(mu) => Ok(self.key_for((v * mu) % self.modulus())),
            }
        }
    }

    /// The error for a malformed key, if it is one.
    pub open spec fn key_error(self, key: Seq<char>) -> Option<ErrorSpec> {
        if !all_known(key, self.alphabet) {
            Some(ErrorSpec::UnknownKey)
        } else if key.len() != self.key_length {
            Some(ErrorSpec::KeyLength)
        } else {
            None
        }
    }

    /// Whether every character of `key` is the first one of the alphabet.
    pub open spec fn is_zero_key(self, key: Seq<char>) -> bool {
        forall|i: int| 0 <= i < key.len() ==> key[i] == self.alphabet[0]
    }

    /// The value that a key of the right form stands for under multiplier `mu`.
    pub open spec fn deobfuscate(self, key: Seq<char>, mu: nat) -> Result<nat, ErrorSpec> {
        if gcd(self.modulus(), mu % self.modulus()) != 1 {
            Err(ErrorSpec::Value(no_inverse_message()))
        } else {
            Ok((decode_spec(key, self.alphabet) * inverse_of(mu, self.modulus())) % self.modulus())
        }
    }

    /// Whether reading `key` reaches the multiplier.
    pub open spec fn value_needs_multiplier(self, key: Seq<char>) -> bool {
        self.key_error(key) is None && !self.is_zero_key(key)
    }

    /// What `get_value_big` returns.
    pub open spec fn get_value_big(self, key: Seq<char>) -> Result<nat, ErrorSpec> {
        match self.key_error(key) {
            Some(e) => Err(e),
            None => if self.is_zero_key(key) {
                Ok(0)
            } else {
                match self.multiplier_result() {
                    Err(e) => Err(e),
                    Ok(mu) => self.deobfuscate(key, mu),
                }
            },
        }
    }

    /// What `get_value_u64` returns.
    pub open spec fn get_value_u64(self, key: Seq<char>) -> Result<u64, ErrorSpec> {
        match self.get_value_big(key) {
            Ok(v) => if v <= u64::MAX {
                Ok(v as u64)
            } else {
                Err(ErrorSpec::MaximumValue(u64_overflow_message()))
            },
            Err(e) => Err(e),
        }
    }
}

/// Obfuscates integers into fixed-length keys over an alphabet, by
/// multiplication with an odd (by default prime) multiplier modulo
/// `base^key_length`, and reads keys back.
pub struct Obfuskey {
    alphabet: Alphabet,
    key_length: u32,
    maximum_value: BigNat,
    /// Cached modulus as u128 if it fits (enables the fast path).
    modulus_u128: Option<u128>,
    multiplier: Option<BigNat>,
    /// Cached multiplier as u128 if it fits.
    multiplier_u128: Option<u128>,
    /// Cached modular inverse as u128 if it exists and fits.
    inverse_u128: Option<u128>,
    /// The prime multiplier factor, in fixed point with scale `10^18`.
    prime_multiplier_scaled: u64,
}

impl View for Obfuskey {
    type V = ObfuskeyModel;

    closed spec fn view(&self) -> ObfuskeyModel {
        ObfuskeyModel {
            alphabet: self.alphabet@,
            key_length: self.key_length as nat,
            multiplier: match self.multiplier {
                Some(m) => Some(m@),
                None => None,
            },
            multiplier_scaled: self.prime_multiplier_scaled as nat,
        }
    }
}

/// `x` as `Some` if it fits in a `u128`.
pub open spec fn fit_u128(x: nat) -> Option<u128> {
    if x <= u128::MAX {
        Some(x as u128)
    } else {
        None
    }
}

/// The error for a value that does not fit in a `u64`.
fn u64_overflow_error() -> (r: ObfuskeyError)
    ensures
        r@ == ErrorSpec::MaximumValue(u64_overflow_message()),
{
    ObfuskeyError::MaximumValueError(String::from_str("Value does not fit in u64."))
}

/// Making sure of the multiplier twice is making sure of it once.
pub proof fn lemma_after_ensure_idempotent(m: ObfuskeyModel)
    ensures
        m.after_ensure().after_ensure() == m.after_ensure(),
        m.after_ensure().multiplier_result() == m.multiplier_result() || m.multiplier_result() is Err,
{
}

/// A modular inverse, where one exists, is unique.
pub proof fn lemma_inverse_unique(mu: nat, x: nat, y: nat, m: nat)
    requires
        is_inverse_mod(mu, x, m),
    ensures
        inverse_of(mu, m) == x,
{
    let z = inverse_of(mu, m);
    assert(is_inverse_mod(mu, z, m));
    if m > 1 {
        let mi = m as int;
        lemma_small_mod(1, m);
        lemma_small_mod(x, m);
        lemma_small_mod(z, m);
        // x * (mu * z) = x (mod m) and z * (mu * x) = z (mod m)
        lemma_mul_mod_noop_right(x as int, (mu * z) as int, mi);
        lemma_mul_mod_noop_right(z as int, (mu * x) as int, mi);
        assert(x * (mu * z) == z * (mu * x)) by (nonlinear_arith);
        assert((x as int * 1) % mi == x as int);
        assert((z as int * 1) % mi == z as int);
    }
}

/// A number with an inverse modulo `m` is coprime to `m`.
pub proof fn lemma_inverse_coprime(mu: nat, x: nat, m: nat)
    requires
        is_inverse_mod(mu, x, m),
    ensures
        gcd(m, mu % m) == 1,
{
    let r = mu % m;
    let g = gcd(m, r);
    crate::primes::lemma_gcd_divides(m, r);
    if m == 1 {
        assert(r == 0);
        assert(gcd(1, 0) == 1);
    } else {
        lemma_small_mod(1, m);
        lemma_mul_mod_noop_left(mu as int, x as int, m as int);
        lemma_fundamental_div_mod((r * x) as int, m as int);
        lemma_fundamental_div_mod(m as int, g as int);
        lemma_fundamental_div_mod(r as int, g as int);
        let q = (r * x) / m;
        let a = m / g;
        let b = r / g;
        // 1 = r * x - q * m = g * (b * x - q * a)
        assert(1 == g * (b * x - q * a)) by (nonlinear_arith)
            requires
                r * x == m * q + 1,
                m == g * a,
                r == g * b,
        ;
        assert(g == 1) by (nonlinear_arith)
            requires
                1 == g * (b * x - q * a),
                g > 0,
        ;
    }
}

/// A key of the right form reads as a number below the modulus.
pub proof fn lemma_valid_key_value(m: ObfuskeyModel, key: Seq<char>)
    requires
        valid_alphabet(m.alphabet),
        m.key_error(key) is None,
    ensures
        decode_spec(key, m.alphabet) < m.modulus(),
        crate::numeral::known_prefix_len(key, m.alphabet) == key.len(),
        m.modulus() <= u128::MAX ==> decode_u128_spec(key, m.alphabet) == Ok::<
            Option<u128>,
            ObfuskeyError,
        >(Some(decode_spec(key, m.alphabet) as u128)),
{
    crate::numeral::lemma_key_digits(key, m.alphabet);
    crate::numeral::lemma_horner_bound(crate::numeral::key_digits(key, m.alphabet), m.base());
    crate::numeral::lemma_known_prefix_is_first(key, m.alphabet, key.len() as int);
    assert(key.take(key.len() as int) =~= key);
}

impl Obfuskey {
    /// The internal consistency of an `Obfuskey`.
    pub closed spec fn wf(self) -> bool {
        let m = self@;
        &&& self.alphabet.wf()
        &&& self.maximum_value@ == m.maximum()
        &&& self.modulus_u128 == fit_u128(m.modulus())
        &&& match self.multiplier {
            Some(mu) => self.multiplier_u128 == fit_u128(mu@),
            None => self.multiplier_u128 is None && self.inverse_u128 is None,
        }
        &&& match self.inverse_u128 {
            Some(inv) => {
                &&& self.modulus_u128 is Some
                &&& self.multiplier_u128 is Some
                &&& inv < m.modulus()
                &&& ((self.multiplier_u128->0 as nat) * (inv as nat)) % m.modulus() == 1nat % m.modulus()
            },
            None => (self.modulus_u128 is Some && self.multiplier_u128 is Some) ==> gcd(
                m.modulus(),
                (self.multiplier_u128->0 as nat) % m.modulus(),
            ) != 1,
        }
    }

    /// A well-formed `Obfuskey` has a valid alphabet.
    pub proof fn lemma_wf_model(&self)
        requires
            self.wf(),
        ensures
            valid_alphabet(self@.alphabet),
            self@.modulus() >= 1,
    {
        self.alphabet.lemma_wf_valid();
        crate::primes::lemma_nat_pow_positive(self@.base(), self@.key_length);
    }

    fn build(alpha: Alphabet, key_length: u32, multiplier: Option<BigNat>) -> (r: Obfuskey)
        requires
            alpha.wf(),
        ensures
            r.wf(),
            r@ == (ObfuskeyModel {
                alphabet: alpha@,
                key_length: key_length as nat,
                multiplier: match multiplier {
                    Some(m) => Some(m@),
                    None => None,
                },
                multiplier_scaled: PRIME_MULTIPLIER_SCALED as nat,
            }),
    {
        let base = BigNat::from_u64(alpha.base() as u64);
        proof {
            crate::primes::lemma_nat_pow_positive(alpha@.len(), key_length as nat);
        }
        let maximum_value = base.pow(key_length).sub(&BigNat::from_u64(1));
        let modulus = maximum_value.add(&BigNat::from_u64(1));
        let modulus_u128 = modulus.to_u128();
        let multiplier_u128 = match &multiplier {
            Some(m) => m.to_u128(),
            None => None,
        };
        // Pre-compute inverse if we have a u128 fast path
        let inverse_u128 = match (modulus_u128, multiplier_u128) {
            (Some(m), Some(mult)) => match mod_inv_u128(mult, m) {
                Ok(x) => Some(x),
                Err(_) => None,
            },
            _ => None,
        };
        Obfuskey {
            alphabet: alpha,
            key_length,
            maximum_value,
            modulus_u128,
            multiplier,
            multiplier_u128,
            inverse_u128,
            prime_multiplier_scaled: PRIME_MULTIPLIER_SCALED,
        }
    }

    /// Builds an obfuscator over the characters of `alphabet`, with keys of
    /// `key_length` characters (6 by default) and, optionally, a fixed odd
    /// multiplier; without one, a prime multiplier is generated on first use.
    pub fn new(alphabet: &str, key_length: Option<u32>, multiplier: Option<u64>) -> (r: Result<
        Self,
        ObfuskeyError,
    >)
        ensures
            alphabet@.len() < 2 ==> (r matches Err(e) && e@ == ErrorSpec::Value(
                crate::alphabet::short_alphabet_message(),
            )),
            alphabet@.len() >= 2 && !crate::alphabet::no_duplicates(alphabet@) ==> (r matches Err(
                e,
            ) && e@ == ErrorSpec::Duplicate),
            valid_alphabet(alphabet@) && even_multiplier(multiplier) ==> (r matches Err(
                e,
            ) && e@ == ErrorSpec::Multiplier),
            valid_alphabet(alphabet@) && !even_multiplier(multiplier) ==> (r matches Ok(
                o,
            ) && o.wf() && o@ == ObfuskeyModel {
                alphabet: alphabet@,
                key_length: (match key_length {
                    Some(k) => k,
                    None => DEFAULT_KEY_LENGTH,
                }) as nat,
                multiplier: match multiplier {
                    Some(m) => Some(m as nat),
                    None => None,
                },
                multiplier_scaled: PRIME_MULTIPLIER_SCALED as nat,
            }),
    {
        let key_length = match key_length {
            Some(k) => k,
            None => DEFAULT_KEY_LENGTH,
        };
        let alpha = Alphabet::new(alphabet)?;
        // Validate multiplier is odd if provided
        if let Some(m) = multiplier {
            if m % 2 == 0 {
                return Err(ObfuskeyError::MultiplierError);
            }
        }
        let multiplier_big = match multiplier {
            Some(m) => Some(BigNat::from_u64(m)),
            None => None,
        };
        Ok(Obfuskey::build(alpha, key_length, multiplier_big))
    }

    /// Builds an obfuscator with a `BigNat` multiplier, for very large key
    /// spaces; the multiplier must be odd.
    pub fn with_big_multiplier(alphabet: &str, key_length: u32, multiplier: BigNat) -> (r: Result<
        Self,
        ObfuskeyError,
    >)
        ensures
            alphabet@.len() < 2 ==> (r matches Err(e) && e@ == ErrorSpec::Value(
                crate::alphabet::short_alphabet_message(),
            )),
            alphabet@.len() >= 2 && !crate::alphabet::no_duplicates(alphabet@) ==> (r matches Err(
                e,
            ) && e@ == ErrorSpec::Duplicate),
            valid_alphabet(alphabet@) && multiplier@ % 2 == 0 ==> (r matches Err(e) && e@
                == ErrorSpec::Multiplier),
            valid_alphabet(alphabet@) && multiplier@ % 2 == 1 ==> (r matches Ok(o) && o.wf() && o@
                == ObfuskeyModel {
                alphabet: alphabet@,
                key_length: key_length as nat,
                multiplier: Some(multiplier@),
                multiplier_scaled: PRIME_MULTIPLIER_SCALED as nat,
            }),
    {
        let alpha = Alphabet::new(alphabet)?;
        if multiplier.rem(&BigNat::from_u64(2)).is_zero() {
            return Err(ObfuskeyError::MultiplierError);
        }
        Ok(Obfuskey::build(alpha, key_length, Some(multiplier)))
    }

    /// The alphabet.
    pub fn alphabet(&self) -> (r: &Alphabet)
        requires
            self.wf(),
        ensures
            r.wf(),
            r@ == self@.alphabet,
    {
        &self.alphabet
    }

    /// The number of characters of every key.
    pub fn key_length(&self) -> (r: u32)
        ensures
            r == self@.key_length,
    {
        self.key_length
    }

    /// The largest value that can be obfuscated: `base^key_length - 1`.
    pub fn maximum_value(&self) -> (r: &BigNat)
        requires
            self.wf(),
        ensures
            r@ == self@.maximum(),
    {
        &self.maximum_value
    }

    /// The prime multiplier factor, in fixed point with scale `10^18`.
    pub fn prime_multiplier_scaled(&self) -> (r: u64)
        ensures
            r == self@.multiplier_scaled,
    {
        self.prime_multiplier_scaled
    }

    /// The multiplier, if it is known yet (without generating it).
    pub fn current_multiplier(&self) -> (r: Option<&BigNat>)
        ensures
            match r {
                Some(m) => self@.multiplier == Some(m@),
                None => self@.multiplier is None,
            },
    {
        match &self.multiplier {
            Some(m) => Some(m),
            None => None,
        }
    }

    /// Returns the multiplier, generating it if needed.
    pub fn multiplier(&mut self) -> (r: Result<&BigNat, ObfuskeyError>)
        requires
            old(self).wf(),
            old(self)@.can_generate(),
        ensures
            final(self).wf(),
            final(self)@ == old(self)@.after_ensure(),
            result_view(r) == old(self)@.multiplier_result(),
    {
        self.ensure_multiplier()?;
        match &self.multiplier {
            Some(m) => Ok(m),
            None => Err(ObfuskeyError::MultiplierError),
        }
    }

    /// Whether the multiplier is known or can be generated without the
    /// prime search overflowing: the test to make before a call that
    /// generates it.
    pub fn can_generate_multiplier(&self) -> (r: bool)
        requires
            self.wf(),
        ensures
            r == self@.can_generate(),
    {
        if self.multiplier.is_some() {
            return true;
        }
        proof {
            self.alphabet.lemma_wf_valid();
        }
        let target = crate::math::prime_target_value(
            self.alphabet.base(),
            self.key_length,
            self.prime_multiplier_scaled,
        );
        crate::math::prime_search_fits_check(&target)
    }

    /// Sets the prime multiplier factor (fixed point, scale `10^18`) and
    /// forgets the multiplier, so that the next use generates a new one.
    pub fn set_prime_multiplier(&mut self, multiplier_scaled: u64)
        requires
            old(self).wf(),
        ensures
            final(self).wf(),
            final(self)@ == (ObfuskeyModel {
                multiplier: None,
                multiplier_scaled: multiplier_scaled as nat,
                ..old(self)@
            }),
    {
        self.prime_multiplier_scaled = multiplier_scaled;
        self.multiplier = None;
        self.multiplier_u128 = None;
        self.inverse_u128 = None;
    }

    // =========================================================================
    // u64 convenience API
    // =========================================================================
    /// Obfuscate a u64 value to a fixed-length key string.
    pub fn get_key_u64(&mut self, value: u64) -> (r: Result<String, ObfuskeyError>)
        requires
            old(self).wf(),
            old(self)@.can_generate(),
        ensures
            final(self).wf(),
            final(self)@ == old(self)@.after_ensure(),
            result_view(r) == old(self)@.get_key_u64(value as nat),
    {
        let ghost m0 = self@;
        self.ensure_multiplier()?;
        proof {
            self.lemma_wf_model();
            lemma_after_ensure_idempotent(m0);
        }
        if let Some(modulus) = self.modulus_u128 {
            let max_val = modulus - 1;
            if value as u128 > max_val {
                return Err(self.maximum_value_error());
            }
            if value == 0 {
                return Ok(self.zero_key());
            }
            if let Some(mult) = self.multiplier_u128 {
                let obfuscated = mul_mod_u128(value as u128, mult, modulus);
                let encoded = encode_u128(obfuscated, &self.alphabet);
                return Ok(self.pad_key(&encoded));
            }
        }
        // Fallback to BigNat
        proof {
            if self.modulus_u128 is None {
                assert(self@.maximum() >= u128::MAX);
            }
        }
        self.get_key_big(&BigNat::from_u64(value))
    }

    /// Deobfuscate a key string back to a u64 value.
    ///
    /// A key that stands for a value above `u64::MAX` is refused with a
    /// `MaximumValueError`.
    pub fn get_value_u64(&mut self, key: &str) -> (r: Result<u64, ObfuskeyError>)
        requires
            old(self).wf(),
            old(self)@.value_needs_multiplier(key@) ==> old(self)@.can_generate(),
        ensures
            final(self).wf(),
            final(self)@ == (if old(self)@.value_needs_multiplier(key@) {
                old(self)@.after_ensure()
            } else {
                old(self)@
            }),
            result_view(r) == old(self)@.get_value_u64(key@),
    {
        let ghost m0 = self@;
        self.validate_key(key)?;
        if self.is_zero_key(key) {
            return Ok(0);
        }
        self.ensure_multiplier()?;
        proof {
            self.lemma_wf_model();
            lemma_after_ensure_idempotent(m0);
            lemma_valid_key_value(self@, key@);
        }
        if let (Some(modulus), Some(inverse)) = (self.modulus_u128, self.inverse_u128) {
            let decoded = decode_u128(key, &self.alphabet)?;
            if let Some(decoded_val) = decoded {
                let result = mul_mod_u128(decoded_val, inverse, modulus);
                proof {
                    self.lemma_fast_inverse();
                }
                if result > u64::MAX as u128 {
                    return Err(u64_overflow_error());
                }
                return Ok(result as u64);
            }
        }
        // Fallback
        let result = self.get_value_big(key)?;
        match result.to_u64() {
            Some(v) => Ok(v),
            None => Err(u64_overflow_error()),
        }
    }

    // =========================================================================
    // BigNat API (for large key spaces)
    // =========================================================================
    /// Obfuscate a `BigNat` value to a fixed-length key string.
    pub fn get_key_big(&mut self, value: &BigNat) -> (r: Result<String, ObfuskeyError>)
        requires
            old(self).wf(),
            value@ <= old(self)@.maximum() && value@ != 0 ==> old(self)@.can_generate(),
        ensures
            final(self).wf(),
            final(self)@ == (if value@ > old(self)@.maximum() || value@ == 0 {
                old(self)@
            } else {
                old(self)@.after_ensure()
            }),
            result_view(r) == old(self)@.get_key_big(value@),
    {
        let ghost m0 = self@;
        if self.maximum_value.lt(value) {
            return Err(self.maximum_value_error());
        }
        if value.is_zero() {
            return Ok(self.zero_key());
        }
        self.ensure_multiplier()?;
        proof {
            self.lemma_wf_model();
        }
        // Try u128 fast path
        if let (Some(modulus), Some(mult)) = (self.modulus_u128, self.multiplier_u128) {
            if let Some(val_u128) = value.to_u128() {
                let obfuscated = mul_mod_u128(val_u128, mult, modulus);
                let encoded = encode_u128(obfuscated, &self.alphabet);
                return Ok(self.pad_key(&encoded));
            }
        }
        // BigNat path
        let modulus = self.maximum_value.add(&BigNat::from_u64(1));
        let multiplier = match &self.multiplier {
            Some(m) => m.clone(),
            None => BigNat::zero(),
        };
        let obfuscated = value.mul(&multiplier).rem(&modulus);
        let encoded = encode_big(&obfuscated, &self.alphabet);
        Ok(self.pad_key(&encoded))
    }

    /// Deobfuscate a key string back to a `BigNat` value.
    pub fn get_value_big(&mut self, key: &str) -> (r: Result<BigNat, ObfuskeyError>)
        requires
            old(self).wf(),
            old(self)@.value_needs_multiplier(key@) ==> old(self)@.can_generate(),
        ensures
            final(self).wf(),
            final(self)@ == (if old(self)@.value_needs_multiplier(key@) {
                old(self)@.after_ensure()
            } else {
                old(self)@
            }),
            result_view(r) == old(self)@.get_value_big(key@),
    {
        let ghost m0 = self@;
        self.validate_key(key)?;
        if self.is_zero_key(key) {
            return Ok(BigNat::zero());
        }
        self.ensure_multiplier()?;
        proof {
            self.lemma_wf_model();
            lemma_valid_key_value(self@, key@);
        }
        // Try u128 fast path
        if let (Some(modulus), Some(inverse)) = (self.modulus_u128, self.inverse_u128) {
            if let Some(decoded_val) = decode_u128(key, &self.alphabet)? {
                let result = mul_mod_u128(decoded_val, inverse, modulus);
                proof {
                    self.lemma_fast_inverse();
                }
                return Ok(BigNat::from_u128(result));
            }
        }
        // BigNat path
        let decoded = decode_big(key, &self.alphabet)?;
        let modulus = self.maximum_value.add(&BigNat::from_u64(1));
        let multiplier = match &self.multiplier {
            Some(m) => m.clone(),
            None => BigNat::zero(),
        };
        let inverse = mod_inv_big(&multiplier, &modulus)?;
        proof {
            lemma_inverse_unique(multiplier@, inverse@, inverse_of(multiplier@, modulus@), modulus@);
        }
        Ok(decoded.mul(&inverse).rem(&modulus))
    }

    /// With the multiplier known, the cached inverse is the inverse of the
    /// model's multiplier.
    proof fn lemma_fast_inverse(&self)
        requires
            self.wf(),
            self.inverse_u128 is Some,
        ensures
            self@.multiplier matches Some(mu) && self.inverse_u128->0 == inverse_of(mu, self@.modulus())
                && gcd(self@.modulus(), mu % self@.modulus()) == 1,
    {
        let mu = self.multiplier_u128->0 as nat;
        let inv = self.inverse_u128->0 as nat;
        let m = self@.modulus();
        lemma_inverse_unique(mu, inv, inverse_of(mu, m), m);
        lemma_inverse_coprime(mu, inv, m);
    }

    // =========================================================================
    // Internals
    // =========================================================================
    fn ensure_multiplier(&mut self) -> (r: Result<(), ObfuskeyError>)
        requires
            old(self).wf(),
            old(self)@.can_generate(),
        ensures
            final(self).wf(),
            final(self)@ == old(self)@.after_ensure(),
            match old(self)@.multiplier_result() {
                Ok(mu) => r is Ok && final(self)@.multiplier == Some(mu),
                Err(e) => r matches Err(x) && x@ == e,
            },
    {
        if self.multiplier.is_none() {
            self.generate_multiplier()?;
        }
        Ok(())
    }

    fn generate_multiplier(&mut self) -> (r: Result<(), ObfuskeyError>)
        requires
            old(self).wf(),
            old(self)@.multiplier is None,
            old(self)@.can_generate(),
        ensures
            final(self).wf(),
            final(self)@ == old(self)@.after_ensure(),
            match old(self)@.multiplier_result() {
                Ok(mu) => r is Ok && final(self)@.multiplier == Some(mu),
                Err(e) => r matches Err(x) && x@ == e,
            },
    {
        proof {
            self.lemma_wf_model();
        }
        let prime = generate_prime(
            self.alphabet.base(),
            self.key_length,
            self.prime_multiplier_scaled,
        )?;
        proof {
            crate::primes::lemma_next_prime_unique(self@.target(), prime@);
        }
        self.multiplier_u128 = prime.to_u128();
        // Pre-compute inverse for fast path
        if let (Some(modulus), Some(mult)) = (self.modulus_u128, self.multiplier_u128) {
            self.inverse_u128 = match mod_inv_u128(mult, modulus) {
                Ok(x) => Some(x),
                Err(_) => None,
            };
        }
        self.multiplier = Some(prime);
        Ok(())
    }

    fn validate_key(&self, key: &str) -> (r: Result<(), ObfuskeyError>)
        requires
            self.wf(),
        ensures
            match self@.key_error(key@) {
                Some(e) => r matches Err(x) && x@ == e,
                None => r is Ok,
            },
    {
        let chars = str_chars(key);
        let n = chars.len();
        let mut i: usize = 0;
        while i < n
            invariant
                self.wf(),
                chars@ == key@,
                n == chars.len(),
                i <= n,
                forall|j: int| 0 <= j < i ==> self@.alphabet.contains(#[trigger] key@[j]),
            decreases n - i,
        {
            if self.alphabet.index_of(chars[i]).is_none() {
                return Err(ObfuskeyError::UnknownKeyError);
            }
            i = i + 1;
        }
        if n != self.key_length as usize {
            return Err(ObfuskeyError::KeyLengthError);
        }
        Ok(())
    }

    fn zero_key(&self) -> (r: String)
        requires
            self.wf(),
        ensures
            r@ == self@.zero_key(),
    {
        proof {
            self.alphabet.lemma_wf_valid();
        }
        let c = self.alphabet.first_char();
        let mut s = String::new();
        let mut i: u32 = 0;
        while i < self.key_length
            invariant
                self.wf(),
                c == self@.alphabet[0],
                i <= self.key_length,
                s@ == Seq::new(i as nat, |j: int| self@.alphabet[0]),
            decreases self.key_length - i,
        {
            string_push(&mut s, c);
            proof {
                assert(s@ =~= Seq::new((i + 1) as nat, |j: int| self@.alphabet[0]));
            }
            i = i + 1;
        }
        s
    }

    fn is_zero_key(&self, key: &str) -> (r: bool)
        requires
            self.wf(),
        ensures
            r == self@.is_zero_key(key@),
    {
        proof {
            self.alphabet.lemma_wf_valid();
        }
        let first = self.alphabet.first_char();
        let chars = str_chars(key);
        let n = chars.len();
        let mut i: usize = 0;
        while i < n
            invariant
                chars@ == key@,
                n == chars.len(),
                i <= n,
                first == self@.alphabet[0],
                forall|j: int| 0 <= j < i ==> key@[j] == first,
            decreases n - i,
        {
            if chars[i] != first {
                return false;
            }
            i = i + 1;
        }
        true
    }

    fn pad_key(&self, encoded: &String) -> (r: String)
        requires
            self.wf(),
        ensures
            r@ == pad_spec(encoded@, self@.alphabet[0], self@.key_length),
    {
        proof {
            self.alphabet.lemma_wf_valid();
        }
        let len = self.key_length as usize;
        let encoded_len = encoded.as_str().unicode_len();
        if encoded_len >= len {
            return encoded.clone();
        }
        let pad_char = self.alphabet.first_char();
        let mut result = String::new();
        let mut i: usize = 0;
        while i < len - encoded_len
            invariant
                encoded_len < len,
                i <= len - encoded_len,
                result@ == Seq::new(i as nat, |j: int| pad_char),
            decreases len - encoded_len - i,
        {
            string_push(&mut result, pad_char);
            proof {
                assert(result@ =~= Seq::new((i + 1) as nat, |j: int| pad_char));
            }
            i = i + 1;
        }
        result.append(encoded.as_str());
        result
    }

    fn maximum_value_error(&self) -> (r: ObfuskeyError)
        ensures
            r@ == ErrorSpec::MaximumValue(maximum_value_message(self.maximum_value@)),
    {
        let mut msg = String::from_str("The maximum value possible is ");
        let digits = self.maximum_value.to_decimal_string();
        msg.append(digits.as_str());
        ObfuskeyError::MaximumValueError(msg)
    }
}

/// The description of an obfuscator; `prime_mult` is the text of the prime
/// multiplier factor, shown while the multiplier is not generated yet.
pub open spec fn describe_spec(m: ObfuskeyModel, prime_mult: Seq<char>) -> Seq<char> {
    "Obfuskey(alphabet="@ + crate::alphabet::quoted_alphabet(m.alphabet) + ", key_length="@
        + decimal(m.key_length) + match m.multiplier {
        Some(mu) => ", multiplier="@ + decimal(mu),
        None => ", multiplier=auto (prime_mult="@ + prime_mult + ")"@,
    } + ")"@
}

impl Obfuskey {
    /// A description for display: the alphabet, the key length and the
    /// multiplier, or `prime_mult` while the multiplier is not generated yet.
    pub fn describe(&self, prime_mult: &str) -> (r: String)
        requires
            crate::alphabet::quotable(self@.alphabet),
        ensures
            r@ == describe_spec(self@, prime_mult@),
    {
        let mut s = String::from_str("Obfuskey(alphabet=");
        s.append(self.alphabet.quoted().as_str());
        s.append(", key_length=");
        s.append(BigNat::from_u64(self.key_length as u64).to_decimal_string().as_str());
        match &self.multiplier {
            Some(m) => {
                s.append(", multiplier=");
                s.append(m.to_decimal_string().as_str());
            },
            None => {
                s.append(", multiplier=auto (prime_mult=");
                s.append(prime_mult);
                s.append(")");
            },
        }
        s.append(")");
        s
    }
}

// -----------------------------------------------------------------------------
// Laws
// -----------------------------------------------------------------------------
/// A number coprime to `m` has an inverse modulo `m`.
pub proof fn lemma_inverse_exists(mu: nat, m: nat)
    requires
        m > 0,
        gcd(m, mu % m) == 1,
    ensures
        is_inverse_mod(mu, inverse_of(mu, m), m),
{
    let mi = m as int;
    let r = mu % m;
    let (x, y) = crate::primes::lemma_bezout(m, r);
    lemma_mod_bound(y, mi);
    let w: nat = (y % mi) as nat;
    lemma_mul_mod_noop_left(mu as int, w as int, mi);
    lemma_mul_mod_noop_right(r as int, y, mi);
    assert(r * y == mi * (-x) + 1) by (nonlinear_arith)
        requires
            x * m + y * r == 1,
            mi == m,
    ;
    lemma_mod_multiples_vanish(-x, 1, mi);
    assert(is_inverse_mod(mu, w, m));
}

/// The key of `x < modulus` has `key_length` characters of the alphabet and
/// reads back as `x`; only the key of 0 is all first characters.
pub proof fn lemma_key_for(m: ObfuskeyModel, x: nat)
    requires
        valid_alphabet(m.alphabet),
        m.key_length >= 1,
        x < m.modulus(),
    ensures
        m.key_for(x).len() == m.key_length,
        all_known(m.key_for(x), m.alphabet),
        decode_spec(m.key_for(x), m.alphabet) == x,
        m.is_zero_key(m.key_for(x)) ==> x == 0,
{
    let alpha = m.alphabet;
    let enc = encode_spec(x, alpha);
    let ds = crate::numeral::digits_of(x, alpha.len());
    crate::numeral::lemma_key_digits_of_encode(x, alpha);
    crate::numeral::lemma_digits_of_len(x, alpha.len(), m.key_length);
    crate::numeral::lemma_horner_digits_of(x, alpha.len());
    crate::numeral::lemma_char_digit_of_index(alpha, 0);
    let pad = (m.key_length - enc.len()) as nat;
    let key = m.key_for(x);
    let zc = Seq::new(pad, |i: int| alpha[0]);
    assert(key =~= zc + enc);
    let zeros = Seq::new(pad, |i: int| 0nat);
    let kd = crate::numeral::key_digits(key, alpha);
    assert(kd =~= zeros + ds) by {
        assert forall|i: int| 0 <= i < kd.len() implies kd[i] == (zeros + ds)[i] by {
            if i >= pad {
                assert(key[i] == enc[i - pad]);
                assert(crate::numeral::key_digits(enc, alpha)[i - pad] == ds[i - pad]);
            }
        }
    }
    crate::numeral::lemma_horner_leading_zeros(zeros, ds, alpha.len());
    assert forall|i: int| 0 <= i < key.len() implies alpha.contains(#[trigger] key[i]) by {
        if i < pad {
            assert(alpha[0] == key[i]);
        } else {
            assert(key[i] == enc[i - pad]);
        }
    }
    if m.is_zero_key(key) {
        let all_zero = Seq::new(key.len(), |i: int| 0nat);
        assert(kd =~= all_zero + Seq::<nat>::empty()) by {
            assert forall|i: int| 0 <= i < kd.len() implies kd[i] == 0 by {
                assert(key[i] == alpha[0]);
            }
        }
        crate::numeral::lemma_horner_leading_zeros(all_zero, Seq::<nat>::empty(), alpha.len());
    }
}

/// Multiplying by `mu` and then by its inverse gives back `v`, and a nonzero
/// `v` never multiplies to zero.
proof fn lemma_multiply_back(v: nat, mu: nat, m: nat)
    requires
        0 < v < m,
        is_inverse_mod(mu, inverse_of(mu, m), m),
    ensures
        ((v * mu) % m * inverse_of(mu, m)) % m == v,
        (v * mu) % m != 0,
{
    let inv = inverse_of(mu, m);
    let mi = m as int;
    lemma_small_mod(1, m);
    lemma_small_mod(v, m);
    lemma_mul_mod_noop_left((v * mu) as int, inv as int, mi);
    lemma_mul_is_associative(v as int, mu as int, inv as int);
    lemma_mul_mod_noop_right(v as int, (mu * inv) as int, mi);
    assert(v * 1 == v);
    if (v * mu) % m == 0 {
        assert(0 * inv == 0);
        lemma_small_mod(0, m);
    }
}

/// Reading back the key of a value gives the value. For a valid alphabet,
/// a multiplier coprime to the modulus `base^key_length`, and any value up
/// to the maximum, the key has `key_length` characters and decodes to the
/// value, before and after the multiplier is fixed.
pub proof fn law_key_value_roundtrip(m: ObfuskeyModel, v: nat)
    requires
        valid_alphabet(m.alphabet),
        m.multiplier_result() is Ok,
        gcd(m.modulus(), m.multiplier_result()->Ok_0 % m.modulus()) == 1,
        v <= m.maximum(),
    ensures
        m.get_key_big(v) is Ok,
        m.get_key_big(v)->Ok_0.len() == m.key_length,
        m.get_value_big(m.get_key_big(v)->Ok_0) == Ok::<nat, ErrorSpec>(v),
        m.after_ensure().get_value_big(m.get_key_big(v)->Ok_0) == Ok::<nat, ErrorSpec>(v),
{
    crate::primes::lemma_nat_pow_positive(m.base(), m.key_length);
    lemma_after_ensure_idempotent(m);
    let mm = m.modulus();
    if v == 0 {
        let k = m.zero_key();
        assert forall|i: int| 0 <= i < k.len() implies m.alphabet.contains(#[trigger] k[i]) by {
            assert(m.alphabet[0] == k[i]);
        }
    } else {
        if m.key_length == 0 {
            assert(mm == 1);
        }
        let mu = m.multiplier_result()->Ok_0;
        lemma_inverse_exists(mu, mm);
        lemma_multiply_back(v, mu, mm);
        let x = (v * mu) % mm;
        lemma_key_for(m, x);
    }
}

/// The `u64` and `BigNat` paths agree: once the multiplier is known, a
/// `u64` value has the same key either way, and a key reads as the same
/// value either way where that value fits in a `u64`.
pub proof fn law_u64_big_agree(m: ObfuskeyModel, v: u64, key: Seq<char>)
    requires
        m.multiplier_result() is Ok,
    ensures
        m.get_key_u64(v as nat) == m.get_key_big(v as nat),
        m.get_value_big(key) matches Ok(x) ==> (x <= u64::MAX ==> m.get_value_u64(key) == Ok::<
            u64,
            ErrorSpec,
        >(x as u64)),
{
}

/// Distinct values have distinct keys (for a multiplier coprime to the
/// modulus, and values up to the maximum).
pub proof fn law_keys_distinct(m: ObfuskeyModel, v1: nat, v2: nat)
    requires
        valid_alphabet(m.alphabet),
        m.multiplier_result() is Ok,
        gcd(m.modulus(), m.multiplier_result()->Ok_0 % m.modulus()) == 1,
        v1 <= m.maximum(),
        v2 <= m.maximum(),
        v1 != v2,
    ensures
        m.get_key_big(v1)->Ok_0 != m.get_key_big(v2)->Ok_0,
{
    law_key_value_roundtrip(m, v1);
    law_key_value_roundtrip(m, v2);
}

/// Keys and values do not change from one call to the next: fixing the
/// multiplier, which the first call may do, changes no key and no value.
pub proof fn law_results_stable(m: ObfuskeyModel, v: nat, key: Seq<char>)
    ensures
        m.after_ensure().get_key_big(v) == m.get_key_big(v),
        m.after_ensure().get_key_u64(v) == m.get_key_u64(v),
        m.after_ensure().get_value_big(key) == m.get_value_big(key),
        m.after_ensure().get_value_u64(key) == m.get_value_u64(key),
{
    lemma_after_ensure_idempotent(m);
}

/// A multiplier that shares a factor with the modulus has no inverse: every
/// key of the right form other than the key of zero is refused with the
/// missing-inverse error.
pub proof fn law_no_inverse_error(m: ObfuskeyModel, key: Seq<char>)
    requires
        m.multiplier_result() is Ok,
        gcd(m.modulus(), m.multiplier_result()->Ok_0 % m.modulus()) != 1,
        m.key_error(key) is None,
        !m.is_zero_key(key),
    ensures
        m.get_value_big(key) == Err::<nat, ErrorSpec>(ErrorSpec::Value(no_inverse_message())),
        m.get_value_u64(key) == Err::<u64, ErrorSpec>(ErrorSpec::Value(no_inverse_message())),
{
}

} // verus!
