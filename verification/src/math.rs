//! Primality, prime search, modular inverse and prime generation.
use vstd::arithmetic::div_mod::*;
use vstd::arithmetic::mul::*;
use vstd::prelude::*;

use crate::bignat::{two_pow, nat_pow, nat_bitand, BigNat};
use crate::error::ObfuskeyError;
use crate::primes::{coprime_to_30, is_next_prime, search_candidate, gcd, hits_minus_one, is_prime_number, lemma_divisor_le, lemma_gcd_divides, lemma_nat_pow_adds, lemma_nat_pow_mod, lemma_nat_pow_square, lemma_not_prime_with_divisor, lemma_odd_prime_divides_primorial, lemma_small_divisor, lemma_small_primes, odd_part, passes_miller_rabin, prime_test, strong_probable_prime, two_adic};

verus! {

// =============================================================================
// Native u64 primality (used for numbers below two million)
// =============================================================================
proof fn lemma_odd_no_even_divisor(n: nat, d: nat)
    requires
        n % 2 == 1,
        d > 0,
        d % 2 == 0,
    ensures
        n % d != 0,
{
    if n % d == 0 {
        lemma_fundamental_div_mod(n as int, d as int);
        lemma_fundamental_div_mod(d as int, 2);
        let q = n / d;
        let h = d / 2;
        assert(n == 2 * (h * q)) by (nonlinear_arith)
            requires
                n == d * q,
                d == 2 * h,
        ;
        lemma_mod_multiples_basic((h * q) as int, 2);
        lemma_mul_is_commutative(2, (h * q) as int);
    }
}

/// Trial division by odd numbers up to the square root.
fn trial_division_u64(n: u64) -> (r: bool)
    ensures
        r == is_prime_number(n as nat),
{
    if n <= 1 {
        return false;
    }
    if n <= 3 {
        proof {
            lemma_small_primes();
        }
        return true;
    }
    if n % 2 == 0 {
        proof {
            lemma_not_prime_with_divisor(n as nat, 2);
        }
        return false;
    }
    let mut i: u64 = 3;
    while i <= n / i
        invariant
            n >= 5,
            n % 2 == 1,
            3 <= i,
            i % 2 == 1,
            forall|d: nat| 2 <= d < i ==> #[trigger] ((n as nat) % d) != 0,
        decreases n - i,
    {
        proof {
            lemma_div_is_ordered_by_denominator(n as int, 3, i as int);
            lemma_div_is_strictly_smaller(n as int, 3);
        }
        if n % i == 0 {
            proof {
                lemma_fundamental_div_mod(n as int, i as int);
                assert(i < n) by (nonlinear_arith)
                    requires
                        i <= n / i,
                        n == i * (n / i) + n % i,
                        i >= 3,
                        n / i >= 0,
                ;
                lemma_not_prime_with_divisor(n as nat, i as nat);
            }
            return false;
        }
        proof {
            assert forall|d: nat| 2 <= d < i + 2 implies #[trigger] ((n as nat) % d) != 0 by {
                if d == i + 1 {
                    lemma_odd_no_even_divisor(n as nat, d);
                }
            }
        }
        i = i + 2;
    }
    proof {
        lemma_fundamental_div_mod(n as int, i as int);
        lemma_mod_bound(n as int, i as int);
        assert(i * i > n) by (nonlinear_arith)
            requires
                i > n / i,
                n == i * (n / i) + n % i,
                n % i < i,
        ;
        assert forall|d: nat| 2 <= d < n implies #[trigger] ((n as nat) % d) != 0 by {
            if (n as nat) % d == 0 {
                lemma_small_divisor(n as nat, d);
                let e = choose|e: nat| 2 <= e && e * e <= n && #[trigger] ((n as nat) % e) == 0 && e
                    <= d;
                assert(e < i) by (nonlinear_arith)
                    requires
                        e * e <= n,
                        i * i > n,
                        e >= 0,
                        i >= 0,
                ;
            }
        }
    }
    true
}

/// GCD using native u64.
fn gcd_u64(a: u64, b: u64) -> (r: u64)
    ensures
        r == gcd(a as nat, b as nat),
{
    let mut a = a;
    let mut b = b;
    let ghost g = gcd(a as nat, b as nat);
    while b != 0
        invariant
            gcd(a as nat, b as nat) == g,
        decreases b,
    {
        let t = b;
        b = a % b;
        a = t;
    }
    a
}

// =============================================================================
// u128 modular arithmetic
// =============================================================================
/// `(x + y) % m` for `x, y < m`, without overflow.
fn add_mod_u128(x: u128, y: u128, m: u128) -> (r: u128)
    requires
        x < m,
        y < m,
    ensures
        r == (x + y) % (m as int),
        r < m,
{
    if x >= m - y {
        proof {
            lemma_fundamental_div_mod_converse((x + y) as int, m as int, 1, (x + y - m) as int);
        }
        x - (m - y)
    } else {
        proof {
            lemma_small_mod((x + y) as nat, m as nat);
        }
        x + y
    }
}

/// `(x - y) mod m` for `x, y < m`.
fn sub_mod_u128(x: u128, y: u128, m: u128) -> (r: u128)
    requires
        x < m,
        y < m,
    ensures
        r == (x - y) % (m as int),
        r < m,
{
    if x >= y {
        proof {
            lemma_small_mod((x - y) as nat, m as nat);
        }
        x - y
    } else {
        proof {
            lemma_fundamental_div_mod_converse((x - y) as int, m as int, -1, (m - (y - x)) as int);
        }
        m - (y - x)
    }
}

proof fn lemma_mod_sum_congruent(r: int, a: int, b: int, m: int)
    requires
        m > 0,
    ensures
        ((r % m) + (a % m) * b) % m == (r + a * b) % m,
{
    lemma_mul_mod_noop_left(a, b, m);
    lemma_add_mod_noop(r, a * b, m);
    lemma_add_mod_noop(r % m, (a % m) * b, m);
    lemma_mod_twice(r, m);
    lemma_mod_twice((a % m) * b, m);
}

/// Multiply two u128 values modulo `m` without overflow.
///
/// For `m` up to `u64::MAX` the reduced operands multiply within `u128`;
/// larger moduli use Russian-peasant multiplication with overflow-free
/// modular doubling.
pub(crate) fn mul_mod_u128(a: u128, b: u128, m: u128) -> (r: u128)
    requires
        m > 0,
    ensures
        r == (a * b) % (m as int),
        r < m,
{
    if m <= u64::MAX as u128 {
        let x = a % m;
        let y = b % m;
        proof {
            assert(x * y <= u128::MAX) by (nonlinear_arith)
                requires
                    x < m,
                    y < m,
                    m <= u64::MAX,
            ;
            lemma_mul_mod_noop(a as int, b as int, m as int);
        }
        (x * y) % m
    } else {
        let mut result: u128 = 0;
        let mut x: u128 = a % m;
        let mut y: u128 = b;
        proof {
            lemma_mul_mod_noop_left(a as int, b as int, m as int);
            lemma_small_mod(0, m as nat);
        }
        while y > 0
            invariant
                m > 0,
                result < m,
                x < m,
                (result + x * y) % (m as int) == (a * b) % (m as int),
            decreases y,
        {
            let ghost r0 = result;
            let ghost x0 = x;
            let ghost y0 = y;
            assert(y & 1 == y % 2) by (bit_vector);
            assert(y >> 1 == y / 2) by (bit_vector);
            if y & 1 == 1 {
                result = add_mod_u128(result, x, m);
            }
            x = add_mod_u128(x, x, m);
            y = y >> 1;
            proof {
                let q = y0 / 2;
                lemma_fundamental_div_mod(y0 as int, 2);
                // new value: result' + (2 x0 % m) * q
                let rr: int = if y0 % 2 == 1 {
                    r0 + x0
                } else {
                    r0 as int
                };
                assert(result as int == rr % (m as int)) by {
                    if y0 % 2 != 1 {
                        lemma_small_mod(r0 as nat, m as nat);
                    }
                }
                lemma_mod_sum_congruent(rr, 2 * x0, q as int, m as int);
                assert(rr + (2 * x0) * q == r0 + x0 * y0) by (nonlinear_arith)
                    requires
                        y0 == 2 * q + y0 % 2,
                        rr == (if y0 % 2 == 1 {
                            r0 + x0
                        } else {
                            r0 as int
                        }),
                        y0 % 2 == 0 || y0 % 2 == 1,
                ;
            }
        }
        proof {
            lemma_small_mod(result as nat, m as nat);
        }
        result
    }
}

/// Modular exponentiation: `base^exp % modulus`.
fn mod_pow_u128(base: u128, exp: u128, modulus: u128) -> (r: u128)
    requires
        modulus > 0,
    ensures
        r == nat_pow(base as nat, exp as nat) % (modulus as nat),
        r < modulus,
{
    if modulus == 1 {
        return 0;
    }
    let mut result: u128 = 1;
    let mut b: u128 = base % modulus;
    let mut e: u128 = exp;
    let ghost m = modulus as nat;
    proof {
        lemma_nat_pow_mod(base as nat, exp as nat, m);
        lemma_small_mod(1, m);
        assert(nat_pow(base as nat, 0) == 1);
    }
    while e > 0
        invariant
            m == modulus,
            m > 1,
            result < m,
            b < m,
            (result as nat * nat_pow(b as nat, e as nat)) % m == nat_pow(base as nat, exp as nat) % m,
        decreases e,
    {
        let ghost r0 = result as nat;
        let ghost b0 = b as nat;
        let ghost e0 = e as nat;
        assert(e & 1 == e % 2) by (bit_vector);
        assert(e >> 1 == e / 2) by (bit_vector);
        if e & 1 == 1 {
            result = mul_mod_u128(result, b, modulus);
        }
        e = e >> 1;
        b = mul_mod_u128(b, b, modulus);
        proof {
            let q = e0 / 2;
            lemma_fundamental_div_mod(e0 as int, 2);
            lemma_nat_pow_square(b0, q);
            lemma_nat_pow_mod(b0 * b0, q, m);
            let pq = nat_pow(b0 * b0, q);
            let pqm = nat_pow((b0 * b0) % m, q);
            // new product: result * pqm, with pqm % m == pq % m
            lemma_mul_mod_noop_right(result as int, pqm as int, m as int);
            lemma_mul_mod_noop_right(result as int, pq as int, m as int);
            if e0 % 2 == 1 {
                assert(e0 == 2 * q + 1);
                lemma_nat_pow_adds(b0, 2 * q, 1);
                assert(nat_pow(b0, 1) == b0) by {
                    assert(nat_pow(b0, 0) == 1);
                    lemma_mul_basics(b0 as int);
                }
                // result = (r0 * b0) % m
                lemma_mul_mod_noop_left((r0 * b0) as int, pq as int, m as int);
                lemma_mul_is_associative(r0 as int, b0 as int, pq as int);
                lemma_mul_is_commutative(b0 as int, pq as int);
            } else {
                assert(e0 == 2 * q);
            }
        }
    }
    proof {
        assert(nat_pow(b as nat, 0) == 1);
        let one = nat_pow(b as nat, 0);
        assert(result as nat * one == result as nat) by (nonlinear_arith)
            requires
                one == 1,
        ;
        lemma_small_mod(result as nat, m);
    }
    result
}

// =============================================================================
// Miller-Rabin on u128
// =============================================================================
pub proof fn lemma_two_pow_positive(n: nat)
    ensures
        two_pow(n) >= 1,
    decreases n,
{
    if n > 0 {
        lemma_two_pow_positive((n - 1) as nat);
    }
}

pub proof fn lemma_two_pow_monotone(a: nat, b: nat)
    requires
        a <= b,
    ensures
        two_pow(a) <= two_pow(b),
    decreases b,
{
    if a < b {
        lemma_two_pow_monotone(a, (b - 1) as nat);
        lemma_two_pow_positive((b - 1) as nat);
    }
}

pub proof fn lemma_two_pow_adds(a: nat, b: nat)
    ensures
        two_pow(a + b) == two_pow(a) * two_pow(b),
    decreases a,
{
    if a > 0 {
        lemma_two_pow_adds((a - 1) as nat, b);
        assert(two_pow(a) == 2 * two_pow((a - 1) as nat));
        assert(two_pow(a + b) == 2 * two_pow((a - 1 + b) as nat));
        let x = two_pow((a - 1) as nat);
        let y = two_pow(b);
        assert(2 * (x * y) == (2 * x) * y) by (nonlinear_arith);
    } else {
        assert(two_pow(0) == 1);
        let y = two_pow(b);
        assert(1 * y == y);
    }
}

pub proof fn lemma_two_pow_128()
    ensures
        two_pow(32) == 0x1_0000_0000,
        two_pow(64) == 0x1_0000_0000_0000_0000,
        two_pow(128) == 0x1_0000_0000_0000_0000_0000_0000_0000_0000,
{
    reveal_with_fuel(two_pow, 33);
    lemma_two_pow_adds(32, 32);
    lemma_two_pow_adds(64, 64);
    let t = two_pow(64);
    assert(t * t == 0x1_0000_0000_0000_0000_0000_0000_0000_0000) by (nonlinear_arith)
        requires
            t == 0x1_0000_0000_0000_0000,
    ;
}

pub proof fn lemma_two_adic_odd_part(n: nat)
    requires
        n > 0,
    ensures
        two_pow(two_adic(n)) * odd_part(n) == n,
        odd_part(n) % 2 == 1,
    decreases n,
{
    if n % 2 == 0 {
        lemma_two_adic_odd_part(n / 2);
        lemma_fundamental_div_mod(n as int, 2);
        let k = two_adic(n / 2);
        assert(two_adic(n) == 1 + k);
        assert(two_pow(1 + k) == 2 * two_pow(k));
        let t = two_pow(k);
        let o = odd_part(n / 2);
        assert((2 * t) * o == 2 * (t * o)) by (nonlinear_arith);
    } else {
        assert(two_pow(0) == 1);
        assert(1 * n == n);
    }
}

/// Factor `n - 1 = 2^s * d` where `d` is odd.
fn factor_u128(n: u128) -> (r: (u32, u128))
    requires
        n >= 2,
    ensures
        r.0 == two_adic((n - 1) as nat),
        r.1 == odd_part((n - 1) as nat),
{
    let mut s: u32 = 0;
    let mut d: u128 = n - 1;
    proof {
        lemma_two_pow_128();
        assert(two_pow(0) == 1);
    }
    while d & 1 == 0
        invariant
            d > 0,
            two_adic((n - 1) as nat) == s + two_adic(d as nat),
            odd_part((n - 1) as nat) == odd_part(d as nat),
            two_pow(s as nat) * d == n - 1,
            two_pow(128) == 0x1_0000_0000_0000_0000_0000_0000_0000_0000,
        decreases d,
    {
        assert(d & 1 == d % 2) by (bit_vector);
        assert(d >> 1 == d / 2) by (bit_vector);
        proof {
            lemma_fundamental_div_mod(d as int, 2);
            lemma_mul_is_associative(two_pow(s as nat) as int, 2, (d / 2) as int);
            assert(two_pow((s + 1) as nat) == 2 * two_pow(s as nat));
            lemma_mul_is_commutative(two_pow(s as nat) as int, 2);
            assert(two_pow((s + 1) as nat) * (d / 2) == n - 1);
            assert(s + 1 < 128) by {
                if s + 1 >= 128 {
                    lemma_two_pow_monotone(128, (s + 1) as nat);
                    lemma_mul_increases((d / 2) as int, two_pow((s + 1) as nat) as int);
                    lemma_mul_is_commutative((d / 2) as int, two_pow((s + 1) as nat) as int);
                }
            }
        }
        s = s + 1;
        d = d >> 1;
    }
    assert(d & 1 == d % 2) by (bit_vector);
    (s, d)
}

/// Squaring 1 never reaches `n - 1` when `n > 2`.
proof fn lemma_hits_from_one(s: nat, n: nat)
    requires
        n > 2,
    ensures
        !hits_minus_one(1, s, n),
    decreases s,
{
    if s > 0 {
        lemma_small_mod(1, n);
        lemma_hits_from_one((s - 1) as nat, n);
    }
}

/// Miller-Rabin strong pseudoprime test using native u128.
fn strong_pseudoprime_u128(n: u128, base: u128) -> (r: bool)
    ensures
        r == strong_probable_prime(n as nat, base as nat),
{
    assert(n & 1 == n % 2) by (bit_vector);
    if n & 1 == 0 || n <= 1 {
        return false;
    }
    let (s, d) = factor_u128(n);
    let n_minus_1 = n - 1;
    let mut x = mod_pow_u128(base, d, n);
    proof {
        lemma_two_adic_odd_part((n - 1) as nat);
        assert(s >= 1) by {
            if s == 0 {
                assert(two_pow(0) == 1);
                assert(1 * odd_part((n - 1) as nat) == odd_part((n - 1) as nat));
            }
        }
    }
    if x == 1 || x == n_minus_1 {
        return true;
    }
    let mut i: u32 = 0;
    while i < s - 1
        invariant
            n > 2,
            n % 2 == 1,
            s >= 1,
            i < s,
            n_minus_1 == n - 1,
            x < n,
            x != n - 1,
            strong_probable_prime(n as nat, base as nat) == hits_minus_one(
                x as nat,
                (s - i) as nat,
                n as nat,
            ),
        decreases s - i,
    {
        let ghost xo = x as nat;
        x = mul_mod_u128(x, x, n);
        proof {
            assert(hits_minus_one(xo, (s - i) as nat, n as nat) == hits_minus_one(
                x as nat,
                (s - i - 1) as nat,
                n as nat,
            ));
        }
        if x == n_minus_1 {
            return true;
        }
        if x == 1 {
            proof {
                lemma_hits_from_one((s - i - 1) as nat, n as nat);
            }
            return false;
        }
        i = i + 1;
    }
    proof {
        assert(s - i == 1);
        assert(!hits_minus_one((x as nat * x as nat % n as nat) as nat, 0, n as nat));
        assert(!hits_minus_one(x as nat, 1, n as nat));
    }
    false
}

/// Deterministic Miller-Rabin bases 2, 13, 23 and 1662803.
fn small_strong_pseudoprime_u128(n: u128) -> (r: bool)
    ensures
        r == passes_miller_rabin(n as nat),
{
    strong_pseudoprime_u128(n, 2) && strong_pseudoprime_u128(n, 13) && strong_pseudoprime_u128(
        n,
        23,
    ) && strong_pseudoprime_u128(n, 1662803)
}

// =============================================================================
// Public primality API
// =============================================================================
fn is_prime_u64(n: u64) -> (r: bool)
    ensures
        r == prime_test(n as nat),
{
    if n == 2 {
        proof {
            lemma_small_primes();
        }
        return true;
    }
    if n < 2 || n % 2 == 0 {
        proof {
            if n >= 2 {
                lemma_not_prime_with_divisor(n as nat, 2);
            }
        }
        return false;
    }
    // gcd(n, 510510) > 1 check — 510510 = 2*3*5*7*11*13*17
    let g = gcd_u64(n, 510510);
    if g > 1 {
        proof {
            lemma_small_primes();
            lemma_gcd_divides(n as nat, 510510);
            if is_prime_number(n as nat) && n < 2_000_000 {
                if g < n {
                    lemma_not_prime_with_divisor(n as nat, g as nat);
                }
                lemma_divisor_le(n as nat, g as nat);
                assert(g == n);
                lemma_odd_prime_divides_primorial(n as nat);
            }
        }
        return matches!(n, 3 | 5 | 7 | 11 | 13 | 17);
    }
    if n < 2_000_000 {
        return trial_division_u64(n);
    }
    proof {
        lemma_gcd_divides(n as nat, 510510);
    }
    small_strong_pseudoprime_u128(n as u128)
}

fn is_prime_u128(n: u128) -> (r: bool)
    ensures
        r == prime_test(n as nat),
{
    if n == 2 {
        proof {
            lemma_small_primes();
        }
        return true;
    }
    if n < 2 || n % 2 == 0 {
        proof {
            if 2 <= n < 2_000_000 {
                lemma_not_prime_with_divisor(n as nat, 2);
            }
        }
        return false;
    }
    if n <= u64::MAX as u128 {
        return is_prime_u64(n as u64);
    }
    small_strong_pseudoprime_u128(n)
}

// =============================================================================
// BigNat primality (for numbers above u128::MAX)
// =============================================================================
fn factor_big(n: &BigNat) -> (r: (u64, BigNat))
    requires
        n@ >= 2,
    ensures
        r.0 == two_adic((n@ - 1) as nat),
        r.1@ == odd_part((n@ - 1) as nat),
{
    // the count of factors 2 stays below the bit width of `n`
    let width = n.bits();
    let mut s: u64 = 0;
    let one = BigNat::from_u64(1);
    let two = BigNat::from_u64(2);
    let mut d = n.sub(&one);
    proof {
        assert(two_pow(0) == 1);
    }
    while d.rem(&two).is_zero()
        invariant
            two@ == 2,
            d@ > 0,
            two_adic((n@ - 1) as nat) == s + two_adic(d@),
            odd_part((n@ - 1) as nat) == odd_part(d@),
            two_pow(s as nat) * d@ == n@ - 1,
            n@ < two_pow(width as nat),
        decreases d@,
    {
        proof {
            lemma_fundamental_div_mod(d@ as int, 2);
            let h = d@ / 2;
            assert(two_pow((s + 1) as nat) == 2 * two_pow(s as nat));
            let t = two_pow(s as nat);
            assert((2 * t) * h == t * d@) by (nonlinear_arith)
                requires
                    d@ == 2 * h + 0,
            ;
            assert(s + 1 <= width) by {
                if s + 1 > width {
                    lemma_two_pow_monotone(width as nat, (s + 1) as nat);
                    assert(h >= 1);
                    lemma_mul_increases(h as int, two_pow((s + 1) as nat) as int);
                    lemma_mul_is_commutative(h as int, two_pow((s + 1) as nat) as int);
                }
            }
        }
        s = s + 1;
        d = d.div(&two);
    }
    (s, d)
}

fn strong_pseudoprime_big(n: &BigNat, base: u64) -> (r: bool)
    requires
        n@ > 2,
        n@ % 2 == 1,
    ensures
        r == strong_probable_prime(n@, base as nat),
{
    let (s, d) = factor_big(n);
    let one = BigNat::from_u64(1);
    let n_minus_1 = n.sub(&one);
    let mut x = BigNat::from_u64(base).modpow(&d, n);
    proof {
        lemma_two_adic_odd_part((n@ - 1) as nat);
        assert(s >= 1) by {
            if s == 0 {
                assert(two_pow(0) == 1);
                assert(1 * odd_part((n@ - 1) as nat) == odd_part((n@ - 1) as nat));
            }
        }
        lemma_mod_bound(nat_pow(base as nat, d@) as int, n@ as int);
    }
    if x.equals(&one) || x.equals(&n_minus_1) {
        return true;
    }
    let two = BigNat::from_u64(2);
    let mut i: u64 = 0;
    while i < s - 1
        invariant
            n@ > 2,
            s >= 1,
            i < s,
            one@ == 1,
            two@ == 2,
            n_minus_1@ == n@ - 1,
            x@ < n@,
            x@ != n@ - 1,
            strong_probable_prime(n@, base as nat) == hits_minus_one(x@, (s - i) as nat, n@),
        decreases s - i,
    {
        let ghost xo = x@;
        x = x.modpow(&two, n);
        proof {
            assert(nat_pow(xo, 2) == xo * xo) by {
                assert(nat_pow(xo, 0) == 1);
                assert(nat_pow(xo, 1) == xo * 1);
            }
            lemma_mod_bound((xo * xo) as int, n@ as int);
            assert(hits_minus_one(xo, (s - i) as nat, n@) == hits_minus_one(
                x@,
                (s - i - 1) as nat,
                n@,
            ));
        }
        if x.equals(&n_minus_1) {
            return true;
        }
        if x.equals(&one) {
            proof {
                lemma_hits_from_one((s - i - 1) as nat, n@);
            }
            return false;
        }
        i = i + 1;
    }
    proof {
        assert(s - i == 1);
        assert(!hits_minus_one((x@ * x@ % n@) as nat, 0, n@));
        assert(!hits_minus_one(x@, 1, n@));
    }
    false
}

/// Determines if an integer is prime: exactly below two million, by the
/// deterministic Miller-Rabin bases above it (see `prime_test`).
pub fn is_prime(n: &BigNat) -> (r: bool)
    ensures
        r == prime_test(n@),
        crate::primes::is_prime_number(n@) ==> r,
        r && n@ > 2 ==> nat_pow(2, (n@ - 1) as nat) % n@ == 1,
{
    proof {
        if crate::primes::is_prime_number(n@) {
            crate::fermat::law_primes_pass_test(n@);
        }
        if prime_test(n@) && n@ > 2 {
            vstd::arithmetic::div_mod::lemma_small_mod(2, n@);
            crate::fermat::law_accepted_is_fermat_probable_prime(n@, 2);
        }
    }
    // Fast path: if it fits in u64, use native arithmetic
    if let Some(n_u64) = n.to_u64() {
        return is_prime_u64(n_u64);
    }
    if let Some(n_u128) = n.to_u128() {
        return is_prime_u128(n_u128);
    }
    // Very large: BigNat path
    let two = BigNat::from_u64(2);
    if n.rem(&two).is_zero() {
        return false;
    }
    strong_pseudoprime_big(n, 2) && strong_pseudoprime_big(n, 13) && strong_pseudoprime_big(n, 23)
        && strong_pseudoprime_big(n, 1662803)
}

// =============================================================================
// Next prime
// =============================================================================
/// Distance from a residue modulo 30 to the next residue coprime to 30.
const GAP: [u64; 30] = [
    1, 6, 5, 4, 3, 2, 1, 4, 3, 2, 1, 2, 1, 4, 3, 2, 1, 2, 1, 4, 3, 2, 1, 6, 5, 4, 3, 2, 1, 2,
];

/// The wheel step from `c`: the distance to the next number coprime to 30.
pub open spec fn wheel_gap(c: nat) -> nat {
    let r = c % 30;
    if r == 1 || r == 23 {
        6
    } else if r == 2 || r == 24 {
        5
    } else if r == 3 || r == 7 || r == 13 || r == 19 || r == 25 {
        4
    } else if r == 4 || r == 8 || r == 14 || r == 20 || r == 26 {
        3
    } else if r == 0 || r == 6 || r == 10 || r == 12 || r == 16 || r == 18 || r == 22 || r == 28 {
        1
    } else {
        2
    }
}

proof fn lemma_gap_table(c: nat)
    ensures
        GAP@[(c % 30) as int] == wheel_gap(c),
{
    let r = c % 30;
    assert(r < 30);
    if r == 0 {
        assert(GAP@[0] == 1);
        } else if r == 1 {
        assert(GAP@[1] == 6);

        } else if r == 2 {
        assert(GAP@[2] == 5);
        } else if r == 3 {
        assert(GAP@[3] == 4);
        } else if r == 4 {
        assert(GAP@[4] == 3);
        } else if r == 5 {
        assert(GAP@[5] == 2);
        } else if r == 6 {
        assert(GAP@[6] == 1);
        } else if r == 7 {
        assert(GAP@[7] == 4);
        } else if r == 8 {
        assert(GAP@[8] == 3);
        } else if r == 9 {
        assert(GAP@[9] == 2);
        } else if r == 10 {
        assert(GAP@[10] == 1);
        } else if r == 11 {
        assert(GAP@[11] == 2);
        } else if r == 12 {
        assert(GAP@[12] == 1);
        } else if r == 13 {
        assert(GAP@[13] == 4);
        } else if r == 14 {
        assert(GAP@[14] == 3);
        } else if r == 15 {
        assert(GAP@[15] == 2);
        } else if r == 16 {
        assert(GAP@[16] == 1);
        } else if r == 17 {
        assert(GAP@[17] == 2);
        } else if r == 18 {
        assert(GAP@[18] == 1);
        } else if r == 19 {
        assert(GAP@[19] == 4);
        } else if r == 20 {
        assert(GAP@[20] == 3);
        } else if r == 21 {
        assert(GAP@[21] == 2);
        } else if r == 22 {
        assert(GAP@[22] == 1);
        } else if r == 23 {
        assert(GAP@[23] == 6);
        } else if r == 24 {
        assert(GAP@[24] == 5);
        } else if r == 25 {
        assert(GAP@[25] == 4);
        } else if r == 26 {
        assert(GAP@[26] == 3);
        } else if r == 27 {
        assert(GAP@[27] == 2);
        } else if r == 28 {
        assert(GAP@[28] == 1);
        } else if r == 29 {
        assert(GAP@[29] == 2);
    }
}

/// From an odd `c`, the wheel step lands on the next number coprime to 30.
proof fn lemma_wheel_step(c: nat)
    requires
        c % 2 == 1,
    ensures
        coprime_to_30(c + wheel_gap(c)),
        forall|m: nat| c < m < c + wheel_gap(c) ==> !coprime_to_30(m),
        1 <= wheel_gap(c) <= 6,
{
    let q = c / 30;
    let r = c % 30;
    lemma_fundamental_div_mod(c as int, 30);
    assert(c == 30 * q + r);
    assert forall|m: nat| c < m < c + wheel_gap(c) implies !coprime_to_30(m) by {
        let t = (m - c) as nat;
        assert(m == 30 * q + r + t);
        assert(m % 2 == (r + t) % 2 && m % 3 == (r + t) % 3 && m % 5 == (r + t) % 5) by {
            lemma_mod_multiples_vanish((15 * q) as int, (r + t) as int, 2);
            lemma_mod_multiples_vanish((10 * q) as int, (r + t) as int, 3);
            lemma_mod_multiples_vanish((6 * q) as int, (r + t) as int, 5);
        }
    }
    let g = wheel_gap(c);
    assert((c + g) % 2 == (r + g) % 2 && (c + g) % 3 == (r + g) % 3 && (c + g) % 5 == (r + g) % 5)
        by {
        lemma_mod_multiples_vanish((15 * q) as int, (r + g) as int, 2);
        lemma_mod_multiples_vanish((10 * q) as int, (r + g) as int, 3);
        lemma_mod_multiples_vanish((6 * q) as int, (r + g) as int, 5);
    }
}

/// A prime candidate that the search reaches: the least accepted candidate
/// above `n` exists below `bound`.
pub open spec fn accepted_candidate_below(n: nat, bound: nat) -> bool {
    exists|p: nat| n < p <= bound && search_candidate(n, p) && prime_test(p)
}

/// The search for the next prime above a number that fits in a `u128` finds
/// its prime without leaving the `u128` range (the search panics on
/// overflow otherwise).
pub open spec fn prime_search_fits(n: nat) -> bool {
    n <= u128::MAX ==> accepted_candidate_below(n, u128::MAX as nat)
}

proof fn lemma_small_next_primes()
    ensures
        is_next_prime(0, 2),
        is_next_prime(1, 2),
        is_next_prime(2, 3),
        is_next_prime(3, 5),
        is_next_prime(4, 5),
{
    lemma_small_primes();
}

/// Find the next prime strictly greater than n, using native u128 arithmetic.
fn next_prime_u128(n: u128) -> (r: u128)
    requires
        n < 5 || accepted_candidate_below(n as nat, u128::MAX as nat),
    ensures
        is_next_prime(n as nat, r as nat),
{
    if n < 2 {
        proof {
            lemma_small_next_primes();
        }
        return 2;
    }
    if n < 5 {
        proof {
            lemma_small_next_primes();
        }
        return if n == 2 {
            3
        } else {
            5
        };
    }
    let ghost p = choose|p: nat|
        n < p <= u128::MAX && search_candidate(n as nat, p) && prime_test(p);
    assert(n & 1 == n % 2) by (bit_vector);
    let mut candidate = n + 1 + (n & 1);
    proof {
        lemma_gap_table(candidate as nat);
        lemma_wheel_step(candidate as nat);
    }
    if candidate % 3 == 0 || candidate % 5 == 0 {
        candidate = candidate + GAP[(candidate % 30) as usize] as u128;
    }
    while !is_prime_u128(candidate)
        invariant
            n >= 5,
            n < candidate <= p,
            p <= u128::MAX,
            coprime_to_30(p),
            prime_test(p),
            coprime_to_30(candidate as nat),
            forall|m: nat| n < m < candidate && coprime_to_30(m) ==> !prime_test(m),
        decreases p - candidate,
    {
        proof {
            lemma_gap_table(candidate as nat);
            lemma_wheel_step(candidate as nat);
        }
        candidate = candidate + GAP[(candidate % 30) as usize] as u128;
    }
    candidate
}

/// Whether the search for the next prime above `n` finds an accepted
/// candidate without leaving `u128`.
fn search_fits_u128(n: u128) -> (r: bool)
    ensures
        r == accepted_candidate_below(n as nat, u128::MAX as nat),
{
    if n < 5 {
        proof {
            lemma_small_next_primes();
            assert(n < 5nat && search_candidate(n as nat, 5) && prime_test(5));
        }
        return true;
    }
    if n >= u128::MAX - 1 {
        proof {
            assert(u128::MAX % 3 == 0);
            if accepted_candidate_below(n as nat, u128::MAX as nat) {
                let p = choose|p: nat|
                    n < p <= u128::MAX && search_candidate(n as nat, p) && prime_test(p);
                assert(p == u128::MAX);
            }
        }
        return false;
    }
    assert(n & 1 == n % 2) by (bit_vector);
    let mut candidate = n + 1 + (n & 1);
    proof {
        lemma_gap_table(candidate as nat);
        lemma_wheel_step(candidate as nat);
    }
    if candidate % 3 == 0 || candidate % 5 == 0 {
        let g = GAP[(candidate % 30) as usize] as u128;
        if candidate > u128::MAX - g {
            proof {
                if accepted_candidate_below(n as nat, u128::MAX as nat) {
                    let p = choose|p: nat|
                        n < p <= u128::MAX && search_candidate(n as nat, p) && prime_test(p);
                    assert(!coprime_to_30(p));
                }
            }
            return false;
        }
        candidate = candidate + g;
    }
    while !is_prime_u128(candidate)
        invariant
            n >= 5,
            n < candidate,
            coprime_to_30(candidate as nat),
            forall|m: nat| n < m < candidate && coprime_to_30(m) ==> !prime_test(m),
        decreases u128::MAX - candidate,
    {
        proof {
            lemma_gap_table(candidate as nat);
            lemma_wheel_step(candidate as nat);
        }
        let g = GAP[(candidate % 30) as usize] as u128;
        if candidate > u128::MAX - g {
            proof {
                if accepted_candidate_below(n as nat, u128::MAX as nat) {
                    let p = choose|p: nat|
                        n < p <= u128::MAX && search_candidate(n as nat, p) && prime_test(p);
                    if p < candidate {
                        assert(!prime_test(p));
                    } else if p > candidate {
                        assert(!coprime_to_30(p));
                    }
                }
            }
            return false;
        }
        candidate = candidate + g;
    }
    proof {
        assert(n < candidate as nat <= u128::MAX && search_candidate(n as nat, candidate as nat)
            && prime_test(candidate as nat));
    }
    true
}

/// Whether the search for the next prime above `n` stays within its number
/// type, as `next_prime` requires: a test that callers can make first.
pub fn prime_search_fits_check(n: &BigNat) -> (r: bool)
    ensures
        r == prime_search_fits(n@),
{
    match n.to_u128() {
        Some(x) => search_fits_u128(x),
        None => true,
    }
}

/// The message of the error for a prime search above 512 bits.
pub open spec fn prime_size_message() -> Seq<char> {
    "For integers larger than 512-bit, prime generation is not supported."@
}

/// Finds the next prime number strictly greater than n: the first number of
/// the search (2, 3, 5, then the numbers coprime to 30) that `is_prime`
/// accepts.
pub fn next_prime(n: &BigNat) -> (r: Result<BigNat, ObfuskeyError>)
    requires
        prime_search_fits(n@),
    ensures
        n@ >= two_pow(512) ==> (r matches Err(ObfuskeyError::MaximumValueError(m))
            && m@ == prime_size_message()),
        n@ < two_pow(512) ==> (r matches Ok(p) && is_next_prime(n@, p@)),
{
    let bits = n.bits();
    proof {
        if bits > 512 {
            lemma_two_pow_monotone(512, (bits - 1) as nat);
        } else {
            lemma_two_pow_monotone(bits as nat, 512);
        }
    }
    if bits > 512 {
        return Err(
            ObfuskeyError::MaximumValueError(
                String::from_str("For integers larger than 512-bit, prime generation is not supported."),
            ),
        );
    }
    // Fast path: if it fits in u128
    if let Some(n_u128) = n.to_u128() {
        return Ok(BigNat::from_u128(next_prime_u128(n_u128)));
    }
    // BigNat fallback for very large numbers
    proof {
        lemma_two_pow_128();
        lemma_small_mod(1, 2);
    }
    let one = BigNat::from_u64(1);
    let parity = n.bitand(&one);
    proof {
        assert(nat_bitand(n@, 1) == n@ % 2) by {
            assert(nat_bitand((n@ / 2) as nat, 0) == 0);
        }
    }
    let mut candidate = n.add(&one).add(&parity);
    let thirty = BigNat::from_u64(30);
    let three = BigNat::from_u64(3);
    let five = BigNat::from_u64(5);
    proof {
        lemma_wheel_step(candidate@);
        lemma_gap_table(candidate@);
    }
    if candidate.rem(&three).is_zero() || candidate.rem(&five).is_zero() {
        let idx = gap_index(&candidate, &thirty);
        candidate = candidate.add(&BigNat::from_u64(GAP[idx]));
    }
    // a `BigNat` has fewer than `2^64` bits, which bounds the search
    let width = candidate.bits();
    proof {
        lemma_two_pow_monotone(width as nat, 0xFFFF_FFFF_FFFF_FFFF);
    }
    while !is_prime(&candidate)
        invariant
            n@ > u128::MAX,
            thirty@ == 30,
            n@ < candidate@,
            candidate@ < two_pow(0xFFFF_FFFF_FFFF_FFFF),
            coprime_to_30(candidate@),
            forall|m: nat| n@ < m < candidate@ && coprime_to_30(m) ==> !prime_test(m),
        decreases two_pow(0xFFFF_FFFF_FFFF_FFFF) - candidate@,
    {
        proof {
            lemma_gap_table(candidate@);
            lemma_wheel_step(candidate@);
        }
        let idx = gap_index(&candidate, &thirty);
        candidate = candidate.add(&BigNat::from_u64(GAP[idx]));
        let width = candidate.bits();
        proof {
            lemma_two_pow_monotone(width as nat, 0xFFFF_FFFF_FFFF_FFFF);
        }
    }
    Ok(candidate)
}

/// `candidate % 30` as an index into `GAP`.
fn gap_index(candidate: &BigNat, thirty: &BigNat) -> (r: usize)
    requires
        thirty@ == 30,
    ensures
        r == candidate@ % 30,
        r < 30,
{
    let rem = candidate.rem(thirty);
    match rem.to_u64() {
        Some(v) => v as usize,
        None => 0,
    }
}

// =============================================================================
// Modular inverse
// =============================================================================
/// The message of the error for a missing modular inverse.
pub open spec fn no_inverse_message() -> Seq<char> {
    "Modular inverse does not exist (values are not coprime)."@
}

fn no_inverse_error() -> (r: ObfuskeyError)
    ensures
        r matches ObfuskeyError::ValueError(m) && m@ == no_inverse_message(),
{
    ObfuskeyError::ValueError(
        String::from_str("Modular inverse does not exist (values are not coprime)."),
    )
}

proof fn lemma_coefficient_step(m: int, b: int, tp: int, tc: int, rp: int, rc: int, q: int, tn: int)
    requires
        m > 0,
        (tp * b) % m == rp % m,
        (tc * b) % m == rc % m,
        tn % m == (tp - q * tc) % m,
    ensures
        (tn * b) % m == (rp - q * rc) % m,
{
    lemma_mul_mod_noop_left(tn, b, m);
    lemma_mul_mod_noop_left(tp - q * tc, b, m);
    assert((tp - q * tc) * b == tp * b - q * (tc * b)) by (nonlinear_arith);
    lemma_sub_mod_noop(tp * b, q * (tc * b), m);
    lemma_mul_mod_noop_right(q, tc * b, m);
    lemma_mul_mod_noop_right(q, rc, m);
    lemma_sub_mod_noop(rp, q * rc, m);
}

/// Modular inverse using native u128. Returns x such that
/// `(base * x) % modulus == 1`, and an error when `base` and `modulus` are
/// not coprime.
///
/// The Bezout coefficient is kept reduced modulo `modulus`, so that every
/// `u128` modulus is handled without overflow.
pub fn mod_inv_u128(base: u128, modulus: u128) -> (r: Result<u128, ObfuskeyError>)
    requires
        modulus > 0,
    ensures
        gcd(modulus as nat, (base % modulus) as nat) == 1 ==> (r matches Ok(x) && x < modulus && (
        base * x) % (modulus as int) == 1int % (modulus as int)),
        gcd(modulus as nat, (base % modulus) as nat) != 1 ==> (r matches Err(
            ObfuskeyError::ValueError(msg),
        ) && msg@ == no_inverse_message()),
{
    let m = modulus;
    let b = base % m;
    let mut r_prev: u128 = m;
    let mut r_curr: u128 = b;
    let mut t_prev: u128 = 0;
    let mut t_curr: u128 = 1 % m;
    proof {
        lemma_mod_multiples_basic(0, m as int);
        lemma_mod_self_0(m as int);
        lemma_mul_mod_noop_left(1, b as int, m as int);
    }
    while r_curr != 0
        invariant
            m == modulus,
            m > 0,
            b == base % m,
            t_prev < m,
            t_curr < m,
            gcd(r_prev as nat, r_curr as nat) == gcd(m as nat, b as nat),
            (t_prev * b) % (m as int) == (r_prev as int) % (m as int),
            (t_curr * b) % (m as int) == (r_curr as int) % (m as int),
        decreases r_curr,
    {
        let q = r_prev / r_curr;
        proof {
            lemma_fundamental_div_mod(r_prev as int, r_curr as int);
            lemma_mod_bound(r_prev as int, r_curr as int);
            lemma_mul_is_commutative(q as int, r_curr as int);
        }
        let temp_r = r_prev - q * r_curr;
        let qt = mul_mod_u128(q, t_curr, m);
        let temp_t = sub_mod_u128(t_prev, qt, m);
        proof {
            lemma_mul_mod_noop_right(q as int, t_curr as int, m as int);
            lemma_sub_mod_noop_right(t_prev as int, (q * t_curr) as int, m as int);
            lemma_mod_twice((t_prev - qt) as int, m as int);
            lemma_coefficient_step(
                m as int,
                b as int,
                t_prev as int,
                t_curr as int,
                r_prev as int,
                r_curr as int,
                q as int,
                temp_t as int,
            );
        }
        r_prev = r_curr;
        r_curr = temp_r;
        t_prev = t_curr;
        t_curr = temp_t;
    }
    if r_prev != 1 {
        return Err(no_inverse_error());
    }
    proof {
        lemma_mul_mod_noop_right(t_prev as int, base as int, m as int);
        lemma_mul_is_commutative(t_prev as int, base as int);
        lemma_mul_is_commutative(t_prev as int, b as int);
    }
    Ok(t_prev)
}

/// Modular inverse using `BigNat`. Returns x such that
/// `(base * x) % modulus == 1`, and an error when `base` and `modulus` are
/// not coprime.
pub fn mod_inv_big(base: &BigNat, modulus: &BigNat) -> (r: Result<BigNat, ObfuskeyError>)
    requires
        modulus@ > 0,
    ensures
        gcd(modulus@, base@ % modulus@) == 1 ==> (r matches Ok(x) && x@ < modulus@ && (base@ * x@)
            % modulus@ == 1nat % modulus@),
        gcd(modulus@, base@ % modulus@) != 1 ==> (r matches Err(ObfuskeyError::ValueError(msg))
            && msg@ == no_inverse_message()),
{
    let m = modulus;
    let b = base.rem(m);
    let mut r_prev = m.clone();
    let mut r_curr = b.clone();
    let mut t_prev = BigNat::zero();
    let mut t_curr = BigNat::from_u64(1).rem(m);
    proof {
        lemma_mod_multiples_basic(0, m@ as int);
        lemma_mod_self_0(m@ as int);
        lemma_mul_mod_noop_left(1, b@ as int, m@ as int);
    }
    while !r_curr.is_zero()
        invariant
            m@ > 0,
            b@ == base@ % m@,
            t_prev@ < m@,
            t_curr@ < m@,
            gcd(r_prev@, r_curr@) == gcd(m@, b@),
            (t_prev@ * b@) % m@ == r_prev@ % m@,
            (t_curr@ * b@) % m@ == r_curr@ % m@,
        decreases r_curr@,
    {
        let q = r_prev.div(&r_curr);
        let temp_r = r_prev.rem(&r_curr);
        proof {
            lemma_fundamental_div_mod(r_prev@ as int, r_curr@ as int);
            lemma_mod_bound(r_prev@ as int, r_curr@ as int);
        }
        let qt = q.mul(&t_curr).rem(m);
        proof {
            lemma_mod_bound((q@ * t_curr@) as int, m@ as int);
        }
        let temp_t = if qt.lt(&t_prev) || qt.equals(&t_prev) {
            proof {
                lemma_small_mod((t_prev@ - qt@) as nat, m@);
            }
            t_prev.sub(&qt)
        } else {
            proof {
                lemma_fundamental_div_mod_converse(
                    t_prev@ - qt@,
                    m@ as int,
                    -1,
                    (m@ - (qt@ - t_prev@)) as int,
                );
            }
            m.sub(&qt.sub(&t_prev))
        };
        proof {
            lemma_mul_mod_noop_right(q@ as int, t_curr@ as int, m@ as int);
            lemma_sub_mod_noop_right(t_prev@ as int, (q@ * t_curr@) as int, m@ as int);
            lemma_mod_twice(t_prev@ - qt@, m@ as int);
            lemma_coefficient_step(
                m@ as int,
                b@ as int,
                t_prev@ as int,
                t_curr@ as int,
                r_prev@ as int,
                r_curr@ as int,
                q@ as int,
                temp_t@ as int,
            );
            assert(temp_r@ == r_prev@ - q@ * r_curr@) by {
                lemma_fundamental_div_mod(r_prev@ as int, r_curr@ as int);
                lemma_mul_is_commutative(q@ as int, r_curr@ as int);
            }
        }
        r_prev = r_curr;
        r_curr = temp_r;
        t_prev = t_curr;
        t_curr = temp_t;
    }
    if !r_prev.equals(&BigNat::from_u64(1)) {
        return Err(no_inverse_error());
    }
    proof {
        lemma_mul_mod_noop_right(t_prev@ as int, base@ as int, m@ as int);
        lemma_mul_is_commutative(t_prev@ as int, base@ as int);
        lemma_mul_is_commutative(t_prev@ as int, b@ as int);
    }
    Ok(t_prev)
}

// =============================================================================
// Prime generation
// =============================================================================
/// The fixed-point scale of prime multipliers: `10^18`.
pub open spec fn multiplier_scale() -> nat {
    1_000_000_000_000_000_000
}

/// The number above which the prime multiplier is searched:
/// `(base^key_length - 1) * multiplier_scaled / 10^18`.
pub open spec fn prime_target(base: nat, key_length: nat, multiplier_scaled: nat) -> nat {
    ((nat_pow(base, key_length) - 1) as nat) * multiplier_scaled / multiplier_scale()
}

/// The number above which the prime multiplier is searched.
pub(crate) fn prime_target_value(base: usize, key_length: u32, multiplier_scaled: u64) -> (r: BigNat)
    requires
        base > 0 || key_length == 0,
    ensures
        r@ == prime_target(base as nat, key_length as nat, multiplier_scaled as nat),
{
    let base_big = BigNat::from_u64(base as u64);
    proof {
        if base > 0 {
            crate::primes::lemma_nat_pow_positive(base as nat, key_length as nat);
        } else {
            assert(nat_pow(base as nat, 0) == 1);
        }
    }
    let max_value = base_big.pow(key_length).sub(&BigNat::from_u64(1));
    let scale: u64 = 1_000_000_000_000_000_000;
    let target = max_value.mul(&BigNat::from_u64(multiplier_scaled)).div(&BigNat::from_u64(scale));
    target
}

/// Generates a prime multiplier for obfuscation: the next prime above
/// `(base^key_length - 1) * prime_multiplier`, where the multiplier is given
/// in fixed point with scale `10^18`.
pub fn generate_prime(base: usize, key_length: u32, multiplier_scaled: u64) -> (r: Result<
    BigNat,
    ObfuskeyError,
>)
    requires
        base > 0 || key_length == 0,
        prime_search_fits(prime_target(base as nat, key_length as nat, multiplier_scaled as nat)),
    ensures
        ({
            let t = prime_target(base as nat, key_length as nat, multiplier_scaled as nat);
            &&& t >= two_pow(512) ==> (r matches Err(ObfuskeyError::MaximumValueError(m))
                && m@ == prime_size_message())
            &&& t < two_pow(512) ==> (r matches Ok(p) && is_next_prime(t, p@))
        }),
{
    let target = prime_target_value(base, key_length, multiplier_scaled);
    next_prime(&target)
}

} // verus!
