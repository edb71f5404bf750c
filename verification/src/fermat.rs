//! Fermat's little theorem, and with it that every prime passes the
//! library's prime test.
use vstd::arithmetic::div_mod::*;
use vstd::arithmetic::mul::*;
use vstd::prelude::*;

use crate::bignat::nat_pow;
use crate::primes::{is_prime_number, lemma_euclid};

verus! {

/// The binomial coefficient `n` choose `k`, by Pascal's rule.
pub open spec fn binom(n: nat, k: nat) -> nat
    decreases n,
{
    if k == 0 {
        1
    } else if n == 0 {
        0
    } else {
        binom((n - 1) as nat, (k - 1) as nat) + binom((n - 1) as nat, k)
    }
}

/// `sum_{k <= m} binom(n, k) * x^k`.
pub open spec fn binom_sum(n: nat, m: nat, x: nat) -> nat
    decreases m,
{
    if m == 0 {
        1
    } else {
        binom_sum(n, (m - 1) as nat, x) + binom(n, m) * nat_pow(x, m)
    }
}

proof fn lemma_binom_above(n: nat, k: nat)
    requires
        k > n,
    ensures
        binom(n, k) == 0,
    decreases n,
{
    if n > 0 {
        lemma_binom_above((n - 1) as nat, (k - 1) as nat);
        lemma_binom_above((n - 1) as nat, k);
    }
}

proof fn lemma_binom_diagonal(n: nat)
    ensures
        binom(n, n) == 1,
    decreases n,
{
    if n > 0 {
        lemma_binom_diagonal((n - 1) as nat);
        lemma_binom_above((n - 1) as nat, n);
    }
}

/// `k * binom(n, k) == n * binom(n - 1, k - 1)`.
proof fn lemma_binom_absorb(n: nat, k: nat)
    requires
        n >= 1,
        k >= 1,
    ensures
        k * binom(n, k) == n * binom((n - 1) as nat, (k - 1) as nat),
    decreases n,
{
    let n1 = (n - 1) as nat;
    let k1 = (k - 1) as nat;
    if n == 1 {
        if k == 1 {
            assert(binom(1, 1) == binom(0, 0) + binom(0, 1));
            assert(binom(0, 0) == 1);
            assert(binom(0, 1) == 0);
            assert(1 * binom(1, 1) == 1 * binom(0, 0));
        } else {
            lemma_binom_above(1, k);
            lemma_binom_above(0, k1);
        }
    } else if k == 1 {
        lemma_binom_absorb(n1, 1);
        assert(binom(n1, 0) == 1);
        assert(binom(n, 1) == binom(n1, 0) + binom(n1, 1));
        assert(binom((n1 - 1) as nat, 0) == 1);
        assert(1 * binom(n1, 1) == n1 * 1);
        assert(1 * binom(n, 1) == n * binom(n1, 0));
    } else {
        lemma_binom_absorb(n1, k1);
        lemma_binom_absorb(n1, k);
        let a = binom(n1, k1);
        let b = binom(n1, k);
        let c = binom((n1 - 1) as nat, (k1 - 1) as nat);
        let d = binom((n1 - 1) as nat, k1);
        assert(binom(n, k) == a + b);
        assert(a == c + d);
        assert(k * (a + b) == n * a) by (nonlinear_arith)
            requires
                k1 * a == n1 * c,
                k * b == n1 * d,
                a == c + d,
                k == k1 + 1,
                n == n1 + 1,
        ;
    }
}

/// A prime divides `binom(p, k)` for `0 < k < p`.
proof fn lemma_prime_divides_binom(p: nat, k: nat)
    requires
        is_prime_number(p),
        0 < k < p,
    ensures
        binom(p, k) % p == 0,
{
    lemma_binom_absorb(p, k);
    let c = binom((p - 1) as nat, (k - 1) as nat);
    lemma_mod_multiples_basic(c as int, p as int);
    lemma_mul_is_commutative(c as int, p as int);
    lemma_small_mod(k, p);
    lemma_euclid(p, k, binom(p, k));
}

/// Pascal's rule summed: `binom_sum(n, m, x)` splits by the last step.
proof fn lemma_binom_sum_pascal(n: nat, m: nat, x: nat)
    requires
        n >= 1,
        m >= 1,
    ensures
        binom_sum(n, m, x) == binom_sum((n - 1) as nat, m, x) + x * binom_sum(
            (n - 1) as nat,
            (m - 1) as nat,
            x,
        ),
    decreases m,
{
    let n1 = (n - 1) as nat;
    let m1 = (m - 1) as nat;
    assert(binom(n, m) == binom(n1, m1) + binom(n1, m));
    assert(nat_pow(x, m) == x * nat_pow(x, m1));
    if m == 1 {
        assert(nat_pow(x, 0) == 1);
        assert(binom(n1, 0) == 1);
        assert(binom_sum(n1, 0, x) == 1);
        assert(binom_sum(n, 0, x) == 1);
        assert(binom_sum(n, 1, x) == 1 + binom(n, 1) * nat_pow(x, 1));
        assert(binom_sum(n1, 1, x) == 1 + binom(n1, 1) * nat_pow(x, 1));
        assert(binom(n, 1) * x == binom(n1, 1) * x + x * 1) by (nonlinear_arith)
            requires
                binom(n, 1) == 1 + binom(n1, 1),
        ;
    } else {
        lemma_binom_sum_pascal(n, m1, x);
        let m2 = (m1 - 1) as nat;
        let a = binom(n1, m1);
        let b = binom(n1, m);
        let q = nat_pow(x, m1);
        assert(binom_sum(n1, m1, x) == binom_sum(n1, m2, x) + a * q);
        assert((a + b) * (x * q) == b * (x * q) + x * (a * q)) by (nonlinear_arith);
        assert(x * (binom_sum(n1, m2, x) + a * q) == x * binom_sum(n1, m2, x) + x * (a * q))
            by (nonlinear_arith);
    }
}

/// The binomial theorem: `(x + 1)^n == sum_{k <= n} binom(n, k) * x^k`.
pub proof fn lemma_binomial(n: nat, x: nat)
    ensures
        nat_pow(x + 1, n) == binom_sum(n, n, x),
    decreases n,
{
    if n > 0 {
        let n1 = (n - 1) as nat;
        lemma_binomial(n1, x);
        lemma_binom_sum_pascal(n, n, x);
        lemma_binom_above(n1, n);
        assert(binom_sum(n1, n, x) == binom_sum(n1, n1, x) + binom(n1, n) * nat_pow(x, n));
        assert(0 * nat_pow(x, n) == 0);
        let s = binom_sum(n1, n1, x);
        assert((x + 1) * s == s + x * s) by (nonlinear_arith);
    }
}

/// Below `p`, the sum is 1 modulo a prime `p`.
proof fn lemma_binom_sum_mod(p: nat, m: nat, x: nat)
    requires
        is_prime_number(p),
        m < p,
    ensures
        binom_sum(p, m, x) % p == 1,
    decreases m,
{
    lemma_small_mod(1, p);
    if m > 0 {
        lemma_binom_sum_mod(p, (m - 1) as nat, x);
        lemma_prime_divides_binom(p, m);
        let t = binom(p, m) * nat_pow(x, m);
        lemma_mul_mod_noop_left(binom(p, m) as int, nat_pow(x, m) as int, p as int);
        assert(0 * nat_pow(x, m) == 0);
        lemma_small_mod(0, p);
        lemma_add_mod_noop(binom_sum(p, (m - 1) as nat, x) as int, t as int, p as int);
    }
}

/// `(x + 1)^p == x^p + 1` modulo a prime `p`.
pub proof fn lemma_freshman(p: nat, x: nat)
    requires
        is_prime_number(p),
    ensures
        nat_pow(x + 1, p) % p == (nat_pow(x, p) + 1) % p,
{
    lemma_binomial(p, x);
    lemma_binom_diagonal(p);
    lemma_binom_sum_mod(p, (p - 1) as nat, x);
    let s = binom_sum(p, (p - 1) as nat, x);
    assert(binom_sum(p, p, x) == s + binom(p, p) * nat_pow(x, p));
    assert(1 * nat_pow(x, p) == nat_pow(x, p));
    lemma_add_mod_noop(s as int, nat_pow(x, p) as int, p as int);
    lemma_add_mod_noop(1, nat_pow(x, p) as int, p as int);
    lemma_small_mod(1, p);
}

/// Fermat's little theorem: `a^p == a` modulo a prime `p`.
pub proof fn lemma_fermat(p: nat, a: nat)
    requires
        is_prime_number(p),
    ensures
        nat_pow(a, p) % p == a % p,
    decreases a,
{
    if a == 0 {
        assert(nat_pow(0, p) == 0 * nat_pow(0, (p - 1) as nat));
    } else {
        let a1 = (a - 1) as nat;
        lemma_fermat(p, a1);
        lemma_freshman(p, a1);
        lemma_add_mod_noop(nat_pow(a1, p) as int, 1, p as int);
        lemma_add_mod_noop(a1 as int, 1, p as int);
    }
}

/// `a^(p - 1) == 1` modulo a prime `p` that does not divide `a`.
pub proof fn lemma_fermat_unit(p: nat, a: nat)
    requires
        is_prime_number(p),
        a % p != 0,
    ensures
        nat_pow(a, (p - 1) as nat) % p == 1,
{
    let y = nat_pow(a, (p - 1) as nat);
    if a == 0 {
        lemma_small_mod(0, p);
    }
    lemma_fermat(p, a);
    assert(nat_pow(a, p) == a * y);
    crate::primes::lemma_nat_pow_positive(a, (p - 1) as nat);
    // a * (y - 1) is a multiple of p
    lemma_fundamental_div_mod((a * y) as int, p as int);
    lemma_fundamental_div_mod(a as int, p as int);
    let q1 = (a * y) / p;
    let q2 = a / p;
    assert(a * ((y - 1) as nat) == p * (q1 - q2)) by (nonlinear_arith)
        requires
            a * y == p * q1 + (a * y) % p,
            a == p * q2 + a % p,
            (a * y) % p == a % p,
            y >= 1,
    ;
    assert(q1 - q2 >= 0) by (nonlinear_arith)
        requires
            a * ((y - 1) as nat) == p * (q1 - q2),
            p > 0,
    ;
    lemma_mod_multiples_basic(q1 - q2, p as int);
    lemma_mul_is_commutative(q1 - q2, p as int);
    lemma_euclid(p, a, (y - 1) as nat);
    lemma_mod_add_multiples_vanish_one(y, p);
}

/// `(x + 1) % p == 1` when `x % p == 0`.
proof fn lemma_mod_add_multiples_vanish_one(y: nat, p: nat)
    requires
        p > 1,
        y >= 1,
        ((y - 1) as nat) % p == 0,
    ensures
        y % p == 1,
{
    lemma_fundamental_div_mod((y - 1) as int, p as int);
    lemma_mod_multiples_vanish(((y - 1) as nat / p) as int, 1, p as int);
    lemma_small_mod(1, p);
}

/// The square roots of 1 modulo a prime are 1 and -1.
pub proof fn lemma_square_root_of_one(p: nat, x: nat)
    requires
        is_prime_number(p),
        x < p,
        (x * x) % p == 1,
    ensures
        x == 1 || x == p - 1,
{
    if x == 0 {
        lemma_small_mod(0, p);
        assert(0nat * 0 == 0);
    } else {
        lemma_fundamental_div_mod((x * x) as int, p as int);
        let q = (x * x) / p;
        assert(((x - 1) as nat) * (x + 1) == p * q) by (nonlinear_arith)
            requires
                x * x == p * q + 1,
                x >= 1,
        ;
        lemma_mod_multiples_basic(q as int, p as int);
        lemma_mul_is_commutative(q as int, p as int);
        lemma_euclid(p, (x - 1) as nat, x + 1);
        if ((x - 1) as nat) % p == 0 {
            lemma_small_mod((x - 1) as nat, p);
        } else {
            if x + 1 < p {
                lemma_small_mod(x + 1, p);
            }
        }
    }
}

/// A power of a power multiplies the exponents.
proof fn lemma_nat_pow_mul(b: nat, e1: nat, e2: nat)
    ensures
        nat_pow(b, e1 * e2) == nat_pow(nat_pow(b, e1), e2),
    decreases e2,
{
    if e2 == 0 {
        assert(e1 * 0 == 0);
    } else {
        let e = (e2 - 1) as nat;
        lemma_nat_pow_mul(b, e1, e);
        assert(e1 * e2 == e1 * e + e1) by (nonlinear_arith)
            requires
                e2 == e + 1,
        ;
        crate::primes::lemma_nat_pow_adds(b, e1 * e, e1);
        lemma_mul_is_commutative(nat_pow(b, e1 * e) as int, nat_pow(b, e1) as int);
    }
}

/// Squaring `x` modulo a prime reaches `-1` within `s` steps when `x^(2^s)`
/// is 1 and `x` is not.
proof fn lemma_hits(x: nat, s: nat, p: nat)
    requires
        is_prime_number(p),
        x < p,
        x != 1,
        nat_pow(x, crate::bignat::two_pow(s)) % p == 1,
    ensures
        crate::primes::hits_minus_one(x, s, p),
    decreases s,
{
    if s == 0 {
        assert(crate::bignat::two_pow(0) == 1);
        assert(nat_pow(x, 0) == 1);
        assert(nat_pow(x, 1) == x * nat_pow(x, 0));
        assert(x * 1 == x);
        lemma_small_mod(x, p);
        assert(false);
    } else if x == p - 1 {
        assert(crate::primes::hits_minus_one(x, s, p));
    } else {
        let q = crate::bignat::two_pow((s - 1) as nat);
        assert(crate::bignat::two_pow(s) == 2 * q);
        crate::primes::lemma_nat_pow_square(x, q);
        crate::primes::lemma_nat_pow_mod(x * x, q, p);
        let y = (x * x) % p;
        lemma_mod_bound((x * x) as int, p as int);
        if y == 1 {
            lemma_square_root_of_one(p, x);
        }
        lemma_hits(y, (s - 1) as nat, p);
    }
}

/// An odd prime is a strong probable prime to every base it does not divide.
pub proof fn lemma_prime_strong_probable(p: nat, a: nat)
    requires
        is_prime_number(p),
        p % 2 == 1,
        a % p != 0,
    ensures
        crate::primes::strong_probable_prime(p, a),
{
    let n1 = (p - 1) as nat;
    let s = crate::primes::two_adic(n1);
    let d = crate::primes::odd_part(n1);
    crate::math::lemma_two_adic_odd_part(n1);
    lemma_fermat_unit(p, a);
    lemma_mul_is_commutative(crate::bignat::two_pow(s) as int, d as int);
    lemma_nat_pow_mul(a, d, crate::bignat::two_pow(s));
    crate::primes::lemma_nat_pow_mod(nat_pow(a, d), crate::bignat::two_pow(s), p);
    let x = nat_pow(a, d) % p;
    lemma_mod_bound(nat_pow(a, d) as int, p as int);
    if x != 1 {
        lemma_hits(x, s, p);
    }
}

/// Every prime passes the library's prime test: the test never turns a prime
/// away.
pub proof fn law_primes_pass_test(n: nat)
    requires
        is_prime_number(n),
    ensures
        crate::primes::prime_test(n),
{
    if n >= 2_000_000 {
        assert(n % 2 != 0);
        assert(n % 2 == 1);
        lemma_small_mod(2, n);
        lemma_small_mod(13, n);
        lemma_small_mod(23, n);
        lemma_small_mod(1662803, n);
        lemma_prime_strong_probable(n, 2);
        lemma_prime_strong_probable(n, 13);
        lemma_prime_strong_probable(n, 23);
        lemma_prime_strong_probable(n, 1662803);
        let g = crate::primes::gcd(n, 510510);
        crate::primes::lemma_gcd_divides(n, 510510);
        assert(g > 0);
        crate::primes::lemma_divisor_le(n, g);
        if g == n {
            lemma_small_mod(510510, n);
        } else if g >= 2 {
            assert(n % g != 0);
        }
        assert(g == 1);
    }
}

/// The prime search skips no prime: the number it finds above `n` is at
/// most any prime above `n`.
pub proof fn law_next_prime_skips_no_prime(n: nat, p: nat, q: nat)
    requires
        crate::primes::is_next_prime(n, p),
        n < q,
        is_prime_number(q),
    ensures
        p <= q,
{
    if q < p {
        law_primes_pass_test(q);
        if n >= 5 {
            assert(q % 2 != 0 && q % 3 != 0 && q % 5 != 0);
        } else if q > 5 {
            assert(q % 2 != 0 && q % 3 != 0 && q % 5 != 0);
        } else {
            assert(q == 2 || q == 3 || q == 5) by {
                if q == 4 {
                    assert(4nat % 2 == 0);
                }
            }
        }
        assert(crate::primes::search_candidate(n, q) ==> !crate::primes::prime_test(q));
    }
}

/// Every power of 1 is 1.
proof fn lemma_one_power(q: nat)
    ensures
        nat_pow(1, q) == 1,
    decreases q,
{
    if q > 0 {
        lemma_one_power((q - 1) as nat);
    }
}

/// Reaching `-1` by squaring means reaching 1 at the end.
proof fn lemma_hits_reach_one(x: nat, s: nat, n: nat)
    requires
        n > 1,
        x < n,
        crate::primes::hits_minus_one(x, s, n),
    ensures
        nat_pow(x, crate::bignat::two_pow(s)) % n == 1,
    decreases s,
{
    let q = crate::bignat::two_pow((s - 1) as nat);
    assert(crate::bignat::two_pow(s) == 2 * q);
    crate::primes::lemma_nat_pow_square(x, q);
    crate::primes::lemma_nat_pow_mod(x * x, q, n);
    let y = (x * x) % n;
    lemma_mod_bound((x * x) as int, n as int);
    if x == n - 1 {
        assert(x * x == n * ((n - 2) as nat) + 1) by (nonlinear_arith)
            requires
                x == n - 1,
                n > 1,
        ;
        lemma_mod_multiples_vanish(((n - 2) as nat) as int, 1, n as int);
        lemma_small_mod(1, n);
        lemma_one_power(q);
    } else {
        lemma_hits_reach_one(y, (s - 1) as nat, n);
    }
}

/// A strong probable prime to base `a` is a Fermat probable prime to base
/// `a`: `a^(n - 1) == 1` modulo `n`.
pub proof fn lemma_strong_probable_is_fermat(n: nat, a: nat)
    requires
        crate::primes::strong_probable_prime(n, a),
    ensures
        nat_pow(a, (n - 1) as nat) % n == 1,
{
    let n1 = (n - 1) as nat;
    let s = crate::primes::two_adic(n1);
    let d = crate::primes::odd_part(n1);
    crate::math::lemma_two_adic_odd_part(n1);
    lemma_mul_is_commutative(crate::bignat::two_pow(s) as int, d as int);
    lemma_nat_pow_mul(a, d, crate::bignat::two_pow(s));
    crate::primes::lemma_nat_pow_mod(nat_pow(a, d), crate::bignat::two_pow(s), n);
    let x = nat_pow(a, d) % n;
    lemma_mod_bound(nat_pow(a, d) as int, n as int);
    if x == 1 {
        lemma_one_power(crate::bignat::two_pow(s));
        lemma_small_mod(1, n);
    } else {
        lemma_hits_reach_one(x, s, n);
    }
}

/// Every number that the prime test accepts behaves as a prime does to
/// each of the test's bases: `a^(n - 1) == 1` modulo `n` (Fermat's little
/// theorem) for each base `a` that `n` does not divide.
pub proof fn law_accepted_is_fermat_probable_prime(n: nat, a: nat)
    requires
        crate::primes::prime_test(n),
        n > 2,
        a == 2 || a == 13 || a == 23 || a == 1662803,
        a % n != 0,
    ensures
        nat_pow(a, (n - 1) as nat) % n == 1,
{
    if n < 2_000_000 {
        lemma_fermat_unit(n, a);
    } else {
        lemma_strong_probable_is_fermat(n, a);
    }
}

} // verus!
