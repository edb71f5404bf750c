//! Number theory behind the prime tests: powers, divisibility, gcd, strong
//! probable primes.
use vstd::arithmetic::div_mod::*;
use vstd::arithmetic::mul::*;
use vstd::prelude::*;

use crate::bignat::nat_pow;

verus! {

/// `n` is prime: at least 2 and without divisor strictly between 1 and `n`.
pub open spec fn is_prime_number(n: nat) -> bool {
    n >= 2 && forall|d: nat| 2 <= d < n ==> #[trigger] (n % d) != 0
}

/// Greatest common divisor (Euclid's algorithm).
pub open spec fn gcd(a: nat, b: nat) -> nat
    decreases b,
{
    if b == 0 {
        a
    } else {
        gcd(b, a % b)
    }
}

/// The exponent of 2 in `n` (0 for odd `n` and for 0).
pub open spec fn two_adic(n: nat) -> nat
    decreases n,
{
    if n == 0 || n % 2 == 1 {
        0
    } else {
        1 + two_adic(n / 2)
    }
}

/// `n` with every factor 2 removed (0 for 0).
pub open spec fn odd_part(n: nat) -> nat
    decreases n,
{
    if n == 0 || n % 2 == 1 {
        n
    } else {
        odd_part(n / 2)
    }
}

/// Whether squaring `x` modulo `n` reaches `n - 1` within the first `s`
/// values `x, x^2, x^4, ...`.
pub open spec fn hits_minus_one(x: nat, s: nat, n: nat) -> bool
    decreases s,
{
    s > 0 && (x == n - 1 || hits_minus_one(x * x % n, (s - 1) as nat, n))
}

/// `n` is a strong probable prime to base `a`: with `n - 1 = 2^s * d` and
/// `d` odd, either `a^d = 1 (mod n)` or `a^(d * 2^r) = -1 (mod n)` for some
/// `r < s`.
pub open spec fn strong_probable_prime(n: nat, a: nat) -> bool {
    &&& n > 1
    &&& n % 2 == 1
    &&& {
        let x = nat_pow(a, odd_part((n - 1) as nat)) % n;
        x == 1 || hits_minus_one(x, two_adic((n - 1) as nat), n)
    }
}

/// The four Miller-Rabin bases all accept `n`.
pub open spec fn passes_miller_rabin(n: nat) -> bool {
    &&& strong_probable_prime(n, 2)
    &&& strong_probable_prime(n, 13)
    &&& strong_probable_prime(n, 23)
    &&& strong_probable_prime(n, 1662803)
}

/// 2 * 3 * 5 * 7 * 11 * 13 * 17.
pub open spec fn small_primorial() -> nat {
    510510
}

/// What the library's prime test accepts: exact primality below two
/// million; above it, odd numbers that pass the Miller-Rabin bases, and that
/// (up to `u64::MAX`) have no prime factor up to 17.
pub open spec fn prime_test(n: nat) -> bool {
    if n < 2_000_000 {
        is_prime_number(n)
    } else if n <= u64::MAX {
        n % 2 == 1 && gcd(n, small_primorial()) == 1 && passes_miller_rabin(n)
    } else {
        n % 2 == 1 && passes_miller_rabin(n)
    }
}

/// `m` is not a multiple of 2, 3 or 5.
pub open spec fn coprime_to_30(m: nat) -> bool {
    m % 2 != 0 && m % 3 != 0 && m % 5 != 0
}

/// The numbers that the prime search visits after `n`: 2, 3 and 5 for small
/// `n`, then the numbers coprime to 30.
pub open spec fn search_candidate(n: nat, m: nat) -> bool {
    if n < 5 {
        m == 2 || m == 3 || m == 5
    } else {
        coprime_to_30(m)
    }
}

/// `p` is the first candidate above `n` that the prime test accepts.
pub open spec fn is_next_prime(n: nat, p: nat) -> bool {
    &&& p > n
    &&& search_candidate(n, p)
    &&& prime_test(p)
    &&& forall|m: nat| n < m < p && search_candidate(n, m) ==> !prime_test(m)
}

/// The next prime of the search is unique.
pub proof fn lemma_next_prime_unique(n: nat, p: nat)
    requires
        is_next_prime(n, p),
    ensures
        (choose|x: nat| is_next_prime(n, x)) == p,
{
    let x = choose|x: nat| is_next_prime(n, x);
    assert(is_next_prime(n, x));
    if x < p {
        assert(!prime_test(x));
    } else if p < x {
        assert(!prime_test(p));
    }
}

// ---------------------------------------------------------------------------
// Powers
// ---------------------------------------------------------------------------
pub proof fn lemma_nat_pow_adds(b: nat, e1: nat, e2: nat)
    ensures
        nat_pow(b, e1 + e2) == nat_pow(b, e1) * nat_pow(b, e2),
    decreases e1,
{
    if e1 == 0 {
        assert(nat_pow(b, 0) == 1);
    } else {
        lemma_nat_pow_adds(b, (e1 - 1) as nat, e2);
        assert(nat_pow(b, e1 + e2) == b * nat_pow(b, (e1 - 1 + e2) as nat));
        lemma_mul_is_associative(
            b as int,
            nat_pow(b, (e1 - 1) as nat) as int,
            nat_pow(b, e2) as int,
        );
    }
}

pub proof fn lemma_nat_pow_square(b: nat, q: nat)
    ensures
        nat_pow(b, 2 * q) == nat_pow(b * b, q),
    decreases q,
{
    if q == 0 {
        assert(nat_pow(b, 0) == 1);
        assert(nat_pow(b * b, 0) == 1);
    } else {
        lemma_nat_pow_square(b, (q - 1) as nat);
        lemma_nat_pow_adds(b, 2, (2 * (q - 1)) as nat);
        assert(nat_pow(b, 2) == b * b) by {
            assert(nat_pow(b, 0) == 1);
            assert(nat_pow(b, 1) == b * 1);
        }
        assert(2 * q == 2 + 2 * (q - 1));
    }
}

pub proof fn lemma_nat_pow_mod(b: nat, e: nat, m: nat)
    requires
        m > 0,
    ensures
        nat_pow(b % m, e) % m == nat_pow(b, e) % m,
    decreases e,
{
    if e == 0 {
    } else {
        lemma_nat_pow_mod(b, (e - 1) as nat, m);
        let p = nat_pow(b, (e - 1) as nat);
        let q = nat_pow(b % m, (e - 1) as nat);
        lemma_mul_mod_noop_general(b as int, p as int, m as int);
        lemma_mul_mod_noop_general((b % m) as int, q as int, m as int);
        lemma_mod_twice(b as int, m as int);
    }
}

pub proof fn lemma_nat_pow_positive(b: nat, e: nat)
    requires
        b > 0,
    ensures
        nat_pow(b, e) > 0,
    decreases e,
{
    if e > 0 {
        lemma_nat_pow_positive(b, (e - 1) as nat);
        lemma_mul_strictly_positive(b as int, nat_pow(b, (e - 1) as nat) as int);
    }
}

pub proof fn lemma_nat_pow_monotone(b: nat, e1: nat, e2: nat)
    requires
        b >= 1,
        e1 <= e2,
    ensures
        nat_pow(b, e1) <= nat_pow(b, e2),
    decreases e2,
{
    if e1 < e2 {
        lemma_nat_pow_monotone(b, e1, (e2 - 1) as nat);
        lemma_nat_pow_positive(b, (e2 - 1) as nat);
        lemma_mul_increases(b as int, nat_pow(b, (e2 - 1) as nat) as int);
    }
}

// ---------------------------------------------------------------------------
// Divisibility and gcd
// ---------------------------------------------------------------------------
/// The gcd divides both arguments.
pub proof fn lemma_gcd_divides(a: nat, b: nat)
    ensures
        gcd(a, b) > 0 ==> a % gcd(a, b) == 0 && b % gcd(a, b) == 0,
        gcd(a, b) == 0 ==> a == 0 && b == 0,
    decreases b,
{
    if b > 0 {
        lemma_gcd_divides(b, a % b);
        let g = gcd(b, a % b);
        lemma_mod_bound(a as int, b as int);
        if g > 0 {
            lemma_fundamental_div_mod(a as int, b as int);
            // a = (a / b) * b + a % b, both terms multiples of g
            lemma_fundamental_div_mod(b as int, g as int);
            lemma_fundamental_div_mod((a % b) as int, g as int);
            let kb = b / g;
            let kr = (a % b) / g;
            assert(a == g * (kb * (a / b) + kr)) by (nonlinear_arith)
                requires
                    a == b * (a / b) + a % b,
                    b == g * kb,
                    a % b == g * kr,
            ;
            lemma_mod_multiples_basic((kb * (a / b) + kr) as int, g as int);
            lemma_mul_is_commutative(g as int, (kb * (a / b) + kr) as int);
        }
    }
}

/// Bezout coefficients: `x * a + y * b == gcd(a, b)`.
pub proof fn lemma_bezout(a: nat, b: nat) -> (xy: (int, int))
    ensures
        xy.0 * a + xy.1 * b == gcd(a, b),
    decreases b,
{
    if b == 0 {
        (1, 0)
    } else {
        lemma_mod_bound(a as int, b as int);
        let (x, y) = lemma_bezout(b, a % b);
        lemma_fundamental_div_mod(a as int, b as int);
        let q = (a / b) as int;
        assert(y * a + (x - y * q) * b == x * b + y * (a % b)) by (nonlinear_arith)
            requires
                a == b * q + a % b,
        ;
        (y, x - y * q)
    }
}

/// Euclid's lemma: a prime dividing a product divides a factor.
pub proof fn lemma_euclid(p: nat, a: nat, b: nat)
    requires
        is_prime_number(p),
        (a * b) % p == 0,
    ensures
        a % p == 0 || b % p == 0,
{
    if a % p != 0 {
        let g = gcd(p, a);
        lemma_gcd_divides(p, a);
        assert(g > 0);
        assert(g == 1) by {
            if g != 1 {
                lemma_mod_is_zero(p, g);
                assert(g <= p);
                if g < p {
                    assert(p % g != 0);
                }
            }
        }
        let (x, y) = lemma_bezout(p, a);
        // b = x * p * b + y * (a * b)
        lemma_fundamental_div_mod((a * b) as int, p as int);
        let k = (a * b) / p;
        assert(b == p * (x * b + y * k)) by (nonlinear_arith)
            requires
                x * p + y * a == 1,
                a * b == p * k,
        ;
        lemma_mod_multiples_basic(x * b + y * k, p as int);
        lemma_mul_is_commutative(p as int, x * b + y * k);
    }
}

/// If `d` divides `n` and `0 < n`, then `d <= n`.
pub proof fn lemma_divisor_le(n: nat, d: nat)
    requires
        d > 0,
        n > 0,
        n % d == 0,
    ensures
        d <= n,
{
    lemma_fundamental_div_mod(n as int, d as int);
    if n / d == 0 {
        assert(n == 0);
    }
    lemma_mul_increases((n / d) as int, d as int);
    lemma_mul_is_commutative((n / d) as int, d as int);
}

/// A prime dividing a prime is that prime.
proof fn lemma_prime_divides_prime(p: nat, q: nat)
    requires
        is_prime_number(p),
        is_prime_number(q),
        q % p == 0,
    ensures
        p == q,
{
    lemma_divisor_le(q, p);
    if p < q {
        assert(q % p != 0);
    }
}

/// The odd primes dividing `small_primorial()` are exactly 3, 5, 7, 11, 13, 17.
pub proof fn lemma_odd_prime_divides_primorial(p: nat)
    requires
        is_prime_number(p),
        small_primorial() % p == 0,
        p % 2 == 1,
    ensures
        p == 3 || p == 5 || p == 7 || p == 11 || p == 13 || p == 17,
{
    lemma_small_primes();
    assert(510510 == 2 * 255255);
    lemma_euclid(p, 2, 255255);
    if 2nat % p == 0 {
        lemma_divisor_le(2, p);
        assert(p == 2);
    }
    assert(255255 == 3 * 85085);
    lemma_euclid(p, 3, 85085);
    if 3nat % p == 0 {
        lemma_prime_divides_prime(p, 3);
    } else {
        assert(85085 == 5 * 17017);
        lemma_euclid(p, 5, 17017);
        if 5nat % p == 0 {
            lemma_prime_divides_prime(p, 5);
        } else {
            assert(17017 == 7 * 2431);
            lemma_euclid(p, 7, 2431);
            if 7nat % p == 0 {
                lemma_prime_divides_prime(p, 7);
            } else {
                assert(2431 == 11 * 221);
                lemma_euclid(p, 11, 221);
                if 11nat % p == 0 {
                    lemma_prime_divides_prime(p, 11);
                } else {
                    assert(221 == 13 * 17);
                    lemma_euclid(p, 13, 17);
                    if 13nat % p == 0 {
                        lemma_prime_divides_prime(p, 13);
                    } else {
                        lemma_prime_divides_prime(p, 17);
                    }
                }
            }
        }
    }
}

/// 2, 3, 5, 7, 11, 13 and 17 are prime.
pub proof fn lemma_small_primes()
    ensures
        is_prime_number(2),
        is_prime_number(3),
        is_prime_number(5),
        is_prime_number(7),
        is_prime_number(11),
        is_prime_number(13),
        is_prime_number(17),
{
    assert forall|d: nat| 2 <= d < 17 implies #[trigger] (17nat % d) != 0 by {
        assert(d == 2 || d == 3 || d == 4 || d == 5 || d == 6 || d == 7 || d == 8 || d == 9 || d == 10 || d == 11 || d == 12 || d == 13 || d == 14 || d == 15 || d == 16);
    }
    assert forall|d: nat| 2 <= d < 13 implies #[trigger] (13nat % d) != 0 by {
        assert(d == 2 || d == 3 || d == 4 || d == 5 || d == 6 || d == 7 || d == 8 || d == 9 || d == 10 || d == 11 || d == 12);
    }
    assert forall|d: nat| 2 <= d < 11 implies #[trigger] (11nat % d) != 0 by {
        assert(d == 2 || d == 3 || d == 4 || d == 5 || d == 6 || d == 7 || d == 8 || d == 9 || d == 10);
    }
    assert forall|d: nat| 2 <= d < 7 implies #[trigger] (7nat % d) != 0 by {
        assert(d == 2 || d == 3 || d == 4 || d == 5 || d == 6);
    }
    assert forall|d: nat| 2 <= d < 5 implies #[trigger] (5nat % d) != 0 by {
        assert(d == 2 || d == 3 || d == 4);
    }
    assert forall|d: nat| 2 <= d < 3 implies #[trigger] (3nat % d) != 0 by {
        assert(d == 2);
    }
}

/// A number with a divisor strictly between 1 and itself is not prime.
pub proof fn lemma_not_prime_with_divisor(n: nat, d: nat)
    requires
        2 <= d < n,
        n % d == 0,
    ensures
        !is_prime_number(n),
{
}

/// The smallest divisor above 1 of a composite `n` is at most its square root.
pub proof fn lemma_small_divisor(n: nat, d: nat)
    requires
        2 <= d < n,
        n % d == 0,
    ensures
        exists|e: nat| 2 <= e && e * e <= n && #[trigger] (n % e) == 0 && e <= d,
{
    lemma_fundamental_div_mod(n as int, d as int);
    let q = n / d;
    assert(n == d * q);
    assert(q >= 2) by (nonlinear_arith)
        requires
            n == d * q,
            d < n,
    ;
    if d * d <= n {
        assert(2 <= d && d * d <= n && n % d == 0 && d <= d);
    } else {
        // q * q <= n because q <= d
        assert(q <= d) by (nonlinear_arith)
            requires
                n == d * q,
                d * d > n,
                d >= 2,
        ;
        assert(q * q <= n) by (nonlinear_arith)
            requires
                n == d * q,
                q <= d,
        ;
        assert(n % q == 0) by {
            lemma_mod_multiples_basic(d as int, q as int);
        }
        assert(2 <= q && q * q <= n && n % q == 0 && q <= d);
    }
}

} // verus!
