//! Positional numerals: the mathematical meaning of encoding and decoding.
use vstd::arithmetic::div_mod::*;
use vstd::arithmetic::mul::*;
use vstd::prelude::*;

use crate::alphabet::{no_duplicates, position_of, valid_alphabet};

verus! {

/// The base-`b` digits of `n`, most significant first, without leading
/// zeros; the single digit 0 for `n == 0`.
pub open spec fn digits_of(n: nat, b: nat) -> Seq<nat>
    decreases n,
{
    if b < 2 || n < b {
        seq![n]
    } else {
        proof {
            lemma_div_decreases(n as int, b as int);
        }
        digits_of(n / b, b).push(n % b)
    }
}

/// The value of base-`b` digits, most significant first (Horner's rule).
pub open spec fn horner(ds: Seq<nat>, b: nat) -> nat
    decreases ds.len(),
{
    if ds.len() == 0 {
        0
    } else {
        horner(ds.drop_last(), b) * b + ds[ds.len() - 1]
    }
}

/// The characters that write `n` in the positional system of `alpha`.
pub open spec fn encode_spec(n: nat, alpha: Seq<char>) -> Seq<char> {
    digits_of(n, alpha.len()).map_values(|d: nat| alpha[d as int])
}

/// Whether every character of `key` belongs to `alpha`.
pub open spec fn all_known(key: Seq<char>, alpha: Seq<char>) -> bool {
    forall|i: int| 0 <= i < key.len() ==> alpha.contains(#[trigger] key[i])
}

/// The digit that a character of `alpha` stands for.
pub open spec fn char_digit(alpha: Seq<char>, c: char) -> nat {
    match position_of(alpha, c) {
        Some(i) => i as nat,
        None => 0,
    }
}

/// The digits that the characters of `key` stand for.
pub open spec fn key_digits(key: Seq<char>, alpha: Seq<char>) -> Seq<nat> {
    key.map_values(|c: char| char_digit(alpha, c))
}

/// The number that `key` writes in the positional system of `alpha`.
pub open spec fn decode_spec(key: Seq<char>, alpha: Seq<char>) -> nat {
    horner(key_digits(key, alpha), alpha.len())
}

/// The length of the longest prefix of `key` made of characters of `alpha`.
pub open spec fn known_prefix_len(key: Seq<char>, alpha: Seq<char>) -> nat
    decreases key.len(),
{
    if key.len() == 0 || !alpha.contains(key[0]) {
        0
    } else {
        1 + known_prefix_len(key.drop_first(), alpha)
    }
}

pub proof fn lemma_known_prefix(key: Seq<char>, alpha: Seq<char>)
    ensures
        known_prefix_len(key, alpha) <= key.len(),
        forall|i: int| 0 <= i < known_prefix_len(key, alpha) ==> alpha.contains(#[trigger] key[i]),
        known_prefix_len(key, alpha) < key.len() ==> !alpha.contains(
            key[known_prefix_len(key, alpha) as int],
        ),
    decreases key.len(),
{
    if key.len() > 0 && alpha.contains(key[0]) {
        let t = key.drop_first();
        lemma_known_prefix(t, alpha);
        assert forall|i: int| 0 <= i < known_prefix_len(key, alpha) implies alpha.contains(
            #[trigger] key[i],
        ) by {
            if i > 0 {
                assert(key[i] == t[i - 1]);
            }
        }
    }
}

/// `known_prefix_len` is the first index of an unknown character.
pub proof fn lemma_known_prefix_is_first(key: Seq<char>, alpha: Seq<char>, k: int)
    requires
        0 <= k <= key.len(),
        forall|i: int| 0 <= i < k ==> alpha.contains(#[trigger] key[i]),
        k < key.len() ==> !alpha.contains(key[k]),
    ensures
        known_prefix_len(key, alpha) == k,
{
    lemma_known_prefix(key, alpha);
    let p = known_prefix_len(key, alpha) as int;
    if p < k {
        assert(alpha.contains(key[p]));
    } else if p > k {
        assert(alpha.contains(key[k]));
    }
}

pub proof fn lemma_horner_push(ds: Seq<nat>, d: nat, b: nat)
    ensures
        horner(ds.push(d), b) == horner(ds, b) * b + d,
{
    assert(ds.push(d).drop_last() =~= ds);
}

/// Adding a digit never makes the value smaller (for a base of at least 1).
pub proof fn lemma_horner_prefix_monotone(ds: Seq<nat>, i: int, j: int, b: nat)
    requires
        0 <= i <= j <= ds.len(),
        b >= 1,
    ensures
        horner(ds.take(i), b) <= horner(ds.take(j), b),
    decreases j - i,
{
    if i < j {
        lemma_horner_prefix_monotone(ds, i, j - 1, b);
        assert(ds.take(j) =~= ds.take(j - 1).push(ds[j - 1]));
        lemma_horner_push(ds.take(j - 1), ds[j - 1], b);
        let h = horner(ds.take(j - 1), b);
        assert(h <= h * b + ds[j - 1]) by (nonlinear_arith)
            requires
                b >= 1,
        ;
    }
}

/// The digits of `n` are all below the base.
pub proof fn lemma_digits_of_bounded(n: nat, b: nat)
    requires
        b >= 2,
    ensures
        digits_of(n, b).len() >= 1,
        forall|i: int| 0 <= i < digits_of(n, b).len() ==> #[trigger] digits_of(n, b)[i] < b,
    decreases n,
{
    if n >= b {
        lemma_div_decreases(n as int, b as int);
        lemma_digits_of_bounded(n / b, b);
        let p = digits_of(n / b, b);
        assert forall|i: int| 0 <= i < digits_of(n, b).len() implies #[trigger] digits_of(n, b)[i]
            < b by {
            if i < p.len() {
                assert(digits_of(n, b)[i] == p[i]);
            }
        }
    }
}

/// Reading the digits of `n` back gives `n`.
pub proof fn lemma_horner_digits_of(n: nat, b: nat)
    requires
        b >= 2,
    ensures
        horner(digits_of(n, b), b) == n,
    decreases n,
{
    if n < b {
        assert(seq![n].drop_last() =~= Seq::<nat>::empty());
        assert(horner(Seq::<nat>::empty(), b) == 0);
        assert(horner(seq![n], b) == horner(seq![n].drop_last(), b) * b + n);
    } else {
        lemma_div_decreases(n as int, b as int);
        lemma_horner_digits_of(n / b, b);
        lemma_horner_push(digits_of(n / b, b), n % b, b);
        lemma_fundamental_div_mod(n as int, b as int);
        lemma_mul_is_commutative(b as int, (n / b) as int);
    }
}

/// A number below `b^m` has at most `m` digits (when `m >= 1`).
pub proof fn lemma_digits_of_len(n: nat, b: nat, m: nat)
    requires
        b >= 2,
        m >= 1,
        n < crate::bignat::nat_pow(b, m),
    ensures
        digits_of(n, b).len() <= m,
    decreases n,
{
    if n >= b {
        assert(m >= 2) by {
            if m == 1 {
                assert(crate::bignat::nat_pow(b, 0) == 1);
                assert(crate::bignat::nat_pow(b, 1) == b * crate::bignat::nat_pow(b, 0));
                lemma_mul_basics(b as int);
                assert(crate::bignat::nat_pow(b, 1) == b);
                assert(n < b);
            }
        }
        let m1 = (m - 1) as nat;
        assert(crate::bignat::nat_pow(b, m) == b * crate::bignat::nat_pow(b, m1));
        assert(n / b < crate::bignat::nat_pow(b, m1)) by {
            lemma_div_strictly_bounded_by(n as int, b as int, crate::bignat::nat_pow(b, m1) as int);
        }
        lemma_div_decreases(n as int, b as int);
        lemma_digits_of_len(n / b, b, m1);
    }
}

proof fn lemma_div_strictly_bounded_by(x: int, a: int, c: int)
    requires
        a > 0,
        0 <= x < a * c,
    ensures
        x / a < c,
{
    lemma_fundamental_div_mod(x, a);
    if x / a >= c {
        lemma_mul_inequality(c, x / a, a);
        lemma_mul_is_commutative(c, a);
        lemma_mul_is_commutative(x / a, a);
    }
}

/// A value written with `m` digits below `b` is below `b^m`.
pub proof fn lemma_horner_bound(ds: Seq<nat>, b: nat)
    requires
        b >= 1,
        forall|i: int| 0 <= i < ds.len() ==> #[trigger] ds[i] < b,
    ensures
        horner(ds, b) < crate::bignat::nat_pow(b, ds.len()),
    decreases ds.len(),
{
    if ds.len() > 0 {
        let p = ds.drop_last();
        lemma_horner_bound(p, b);
        let h = horner(p, b);
        let q = crate::bignat::nat_pow(b, p.len());
        assert(crate::bignat::nat_pow(b, ds.len()) == b * q);
        assert(h * b + ds[ds.len() - 1] < b * q) by (nonlinear_arith)
            requires
                h < q,
                ds[ds.len() - 1] < b,
        ;
    } else {
        assert(crate::bignat::nat_pow(b, 0) == 1);
    }
}

/// Key digits for a key of alphabet characters: each one is the position of
/// its character.
pub proof fn lemma_key_digits(key: Seq<char>, alpha: Seq<char>)
    requires
        no_duplicates(alpha),
        all_known(key, alpha),
    ensures
        key_digits(key, alpha).len() == key.len(),
        forall|i: int|
            0 <= i < key.len() ==> {
                &&& #[trigger] key_digits(key, alpha)[i] < alpha.len()
                &&& alpha[key_digits(key, alpha)[i] as int] == key[i]
            },
{
    assert forall|i: int| 0 <= i < key.len() implies {
        &&& #[trigger] key_digits(key, alpha)[i] < alpha.len()
        &&& alpha[key_digits(key, alpha)[i] as int] == key[i]
    } by {
        assert(alpha.contains(key[i]));
        let j = choose|j: int| 0 <= j < alpha.len() && alpha[j] == key[i];
        crate::alphabet::lemma_position_unique(alpha, key[i], j);
        assert(key_digits(key, alpha)[i] == char_digit(alpha, key[i]));
        assert(char_digit(alpha, key[i]) == j);
    }
}

/// The digit of a character of the alphabet at index `d` is `d`.
pub proof fn lemma_char_digit_of_index(alpha: Seq<char>, d: int)
    requires
        no_duplicates(alpha),
        0 <= d < alpha.len(),
    ensures
        char_digit(alpha, alpha[d]) == d,
{
    crate::alphabet::lemma_position_unique(alpha, alpha[d], d);
    assert(position_of(alpha, alpha[d]) == Some(d));
}

/// Zeros in front do not change the value of digits.
pub proof fn lemma_horner_leading_zeros(z: Seq<nat>, ds: Seq<nat>, b: nat)
    requires
        forall|i: int| 0 <= i < z.len() ==> z[i] == 0,
    ensures
        horner(z + ds, b) == horner(ds, b),
    decreases z.len() + ds.len(),
{
    if ds.len() == 0 {
        assert(z + ds =~= z);
        if z.len() > 0 {
            lemma_horner_leading_zeros(z.drop_last(), ds, b);
            assert(z.drop_last() + ds =~= z.drop_last());
            assert(horner(z, b) == horner(z.drop_last(), b) * b + z[z.len() - 1]);
            assert(horner(z.drop_last(), b) == 0);
            assert(0 * b == 0);
        }
    } else {
        assert((z + ds).drop_last() =~= z + ds.drop_last());
        assert((z + ds)[(z + ds).len() - 1] == ds[ds.len() - 1]);
        lemma_horner_leading_zeros(z, ds.drop_last(), b);
    }
}

/// The digits that the characters of a numeral stand for are its digits.
pub proof fn lemma_key_digits_of_encode(n: nat, alpha: Seq<char>)
    requires
        valid_alphabet(alpha),
    ensures
        key_digits(encode_spec(n, alpha), alpha) == digits_of(n, alpha.len()),
        all_known(encode_spec(n, alpha), alpha),
{
    let ds = digits_of(n, alpha.len());
    lemma_digits_of_bounded(n, alpha.len());
    assert forall|i: int| 0 <= i < ds.len() implies #[trigger] key_digits(
        encode_spec(n, alpha),
        alpha,
    )[i] == ds[i] by {
        lemma_char_digit_of_index(alpha, ds[i] as int);
    }
    assert(key_digits(encode_spec(n, alpha), alpha) =~= ds);
    assert forall|i: int| 0 <= i < encode_spec(n, alpha).len() implies alpha.contains(
        #[trigger] encode_spec(n, alpha)[i],
    ) by {
        assert(alpha[ds[i] as int] == encode_spec(n, alpha)[i]);
    }
}

/// Decoding the numeral of `n` gives back `n`.
pub proof fn law_decode_encode(n: nat, alpha: Seq<char>)
    requires
        valid_alphabet(alpha),
    ensures
        decode_spec(encode_spec(n, alpha), alpha) == n,
{
    lemma_key_digits_of_encode(n, alpha);
    lemma_horner_digits_of(n, alpha.len());
}

} // verus!
