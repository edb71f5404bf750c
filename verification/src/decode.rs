//! Reading numbers written with the characters of an alphabet.
use vstd::prelude::*;

use crate::alphabet::Alphabet;
use crate::bignat::BigNat;
use crate::error::ObfuskeyError;
use crate::numeral::{
    char_digit, decode_spec, horner, key_digits, known_prefix_len, lemma_horner_prefix_monotone,
    lemma_horner_push, lemma_known_prefix_is_first,
};
use crate::text::str_chars;

verus! {

/// What `decode_u128` returns for `key`: the key is read from the left; the
/// result is `None` once the value would exceed `u128::MAX`, and an
/// `UnknownKeyError` comes at the first character outside the alphabet if
/// that point is reached first.
pub open spec fn decode_u128_spec(key: Seq<char>, alpha: Seq<char>) -> Result<
    Option<u128>,
    ObfuskeyError,
> {
    let k = known_prefix_len(key, alpha);
    let v = decode_spec(key.take(k as int), alpha);
    if v > u128::MAX {
        Ok(None)
    } else if k < key.len() {
        Err(ObfuskeyError::UnknownKeyError)
    } else {
        Ok(Some(v as u128))
    }
}

/// What `decode_big` returns for `key`.
pub open spec fn decode_big_ok(key: Seq<char>, alpha: Seq<char>) -> bool {
    known_prefix_len(key, alpha) == key.len()
}

proof fn lemma_prefix_digits(key: Seq<char>, alpha: Seq<char>, i: int)
    requires
        0 <= i <= key.len(),
    ensures
        key_digits(key.take(i), alpha) == key_digits(key, alpha).take(i),
{
    assert(key_digits(key.take(i), alpha) =~= key_digits(key, alpha).take(i));
}

proof fn lemma_decode_step(key: Seq<char>, alpha: Seq<char>, i: int)
    requires
        0 <= i < key.len(),
    ensures
        decode_spec(key.take(i + 1), alpha) == decode_spec(key.take(i), alpha) * alpha.len()
            + char_digit(alpha, key[i]),
{
    let ds = key_digits(key, alpha);
    lemma_prefix_digits(key, alpha, i);
    lemma_prefix_digits(key, alpha, i + 1);
    assert(ds.take(i + 1) =~= ds.take(i).push(ds[i]));
    lemma_horner_push(ds.take(i), ds[i], alpha.len());
}

/// Decode a string to u128 using the given alphabet.
/// Returns `None` if the result would overflow u128.
pub fn decode_u128(value: &str, alphabet: &Alphabet) -> (r: Result<Option<u128>, ObfuskeyError>)
    requires
        alphabet.wf(),
    ensures
        r == decode_u128_spec(value@, alphabet@),
{
    let base = alphabet.base() as u128;
    let chars = str_chars(value);
    let n = chars.len();
    let ghost key = value@;
    let ghost alpha = alphabet@;
    let mut result: u128 = 0;
    let mut i: usize = 0;
    proof {
        assert(key.take(0) =~= Seq::<char>::empty());
        assert(key_digits(key.take(0), alpha) =~= Seq::<nat>::empty());
    }
    while i < n
        invariant
            alphabet.wf(),
            alpha == alphabet@,
            base == alpha.len(),
            chars@ == key,
            key == value@,
            n == key.len(),
            i <= n,
            forall|j: int| 0 <= j < i ==> alpha.contains(#[trigger] key[j]),
            result == decode_spec(key.take(i as int), alpha),
        decreases n - i,
    {
        let c = chars[i];
        let idx = match alphabet.index_of(c) {
            Some(x) => x,
            None => {
                proof {
                    assert(key[i as int] == c);
                    lemma_known_prefix_is_first(key, alpha, i as int);
                }
                return Err(ObfuskeyError::UnknownKeyError);
            },
        };
        proof {
            lemma_decode_step(key, alpha, i as int);
            assert(char_digit(alpha, c) == idx);
        }
        let next = match result.checked_mul(base) {
            Some(v) => v.checked_add(idx as u128),
            None => None,
        };
        match next {
            Some(v) => {
                result = v;
            },
            None => {
                proof {
                    let ghost k = known_prefix_len(key, alpha) as int;
                    crate::numeral::lemma_known_prefix(key, alpha);
                    assert(k > i) by {
                        if k <= i {
                            assert(alpha.contains(key[k]));
                        }
                    }
                    let ds = key_digits(key, alpha);
                    lemma_horner_prefix_monotone(ds, i + 1, k, alpha.len());
                    lemma_prefix_digits(key, alpha, i + 1);
                    lemma_prefix_digits(key, alpha, k);
                }
                return Ok(None);
            },
        }
        i = i + 1;
    }
    proof {
        lemma_known_prefix_is_first(key, alpha, n as int);
        assert(key.take(n as int) =~= key);
    }
    Ok(Some(result))
}

/// Decode a string to a `BigNat` using the given alphabet
/// (Horner's method, left to right).
pub fn decode_big(value: &str, alphabet: &Alphabet) -> (r: Result<BigNat, ObfuskeyError>)
    requires
        alphabet.wf(),
    ensures
        decode_big_ok(value@, alphabet@) ==> (r matches Ok(v) && v@ == decode_spec(
            value@,
            alphabet@,
        )),
        !decode_big_ok(value@, alphabet@) ==> r == Err::<BigNat, ObfuskeyError>(
            ObfuskeyError::UnknownKeyError,
        ),
{
    let base = BigNat::from_u64(alphabet.base() as u64);
    let chars = str_chars(value);
    let n = chars.len();
    let ghost key = value@;
    let ghost alpha = alphabet@;
    let mut result = BigNat::zero();
    let mut i: usize = 0;
    proof {
        assert(key.take(0) =~= Seq::<char>::empty());
        assert(key_digits(key.take(0), alpha) =~= Seq::<nat>::empty());
    }
    while i < n
        invariant
            alphabet.wf(),
            alpha == alphabet@,
            base@ == alpha.len(),
            chars@ == key,
            key == value@,
            n == key.len(),
            i <= n,
            forall|j: int| 0 <= j < i ==> alpha.contains(#[trigger] key[j]),
            result@ == decode_spec(key.take(i as int), alpha),
        decreases n - i,
    {
        let c = chars[i];
        let idx = match alphabet.index_of(c) {
            Some(x) => x,
            None => {
                proof {
                    assert(key[i as int] == c);
                    lemma_known_prefix_is_first(key, alpha, i as int);
                }
                return Err(ObfuskeyError::UnknownKeyError);
            },
        };
        proof {
            lemma_decode_step(key, alpha, i as int);
            assert(char_digit(alpha, c) == idx);
        }
        result = result.mul(&base).add(&BigNat::from_u64(idx as u64));
        i = i + 1;
    }
    proof {
        lemma_known_prefix_is_first(key, alpha, n as int);
        assert(key.take(n as int) =~= key);
    }
    Ok(result)
}

/// Decoding the numeral of `v`, with any number of first characters in
/// front, gives back `v`.
pub proof fn law_decode_u128_padded(v: u128, alpha: Seq<char>, j: nat)
    requires
        crate::alphabet::valid_alphabet(alpha),
    ensures
        decode_u128_spec(
            Seq::new(j, |i: int| alpha[0]) + crate::numeral::encode_spec(v as nat, alpha),
            alpha,
        ) == Ok::<Option<u128>, ObfuskeyError>(Some(v)),
{
    let enc = crate::numeral::encode_spec(v as nat, alpha);
    let ds = crate::numeral::digits_of(v as nat, alpha.len());
    let zc = Seq::new(j, |i: int| alpha[0]);
    let key = zc + enc;
    crate::numeral::lemma_key_digits_of_encode(v as nat, alpha);
    crate::numeral::lemma_horner_digits_of(v as nat, alpha.len());
    crate::numeral::lemma_char_digit_of_index(alpha, 0);
    assert forall|i: int| 0 <= i < key.len() implies alpha.contains(#[trigger] key[i]) by {
        if i < j {
            assert(alpha[0] == key[i]);
        } else {
            assert(key[i] == enc[i - j]);
        }
    }
    lemma_known_prefix_is_first(key, alpha, key.len() as int);
    assert(key.take(key.len() as int) =~= key);
    let zeros = Seq::new(j, |i: int| 0nat);
    let kd = key_digits(key, alpha);
    assert(kd =~= zeros + ds) by {
        assert forall|i: int| 0 <= i < kd.len() implies kd[i] == (zeros + ds)[i] by {
            if i >= j {
                assert(key[i] == enc[i - j]);
                assert(key_digits(enc, alpha)[i - j] == ds[i - j]);
            }
        }
    }
    crate::numeral::lemma_horner_leading_zeros(zeros, ds, alpha.len());
}

} // verus!
