use obfuskey::decode::{decode_big, decode_u128};
use obfuskey::encode::{encode_big, encode_u128};
use obfuskey::math::{
    generate_prime, is_prime, mod_inv_big, mod_inv_u128, next_prime, prime_search_fits_check,
};
use obfuskey::{alphabets, Alphabet, BigNat, ObfuskeyError};

fn big(s: &str) -> BigNat {
    // decimal text to BigNat, one digit at a time
    let mut n = BigNat::zero();
    for c in s.chars() {
        let d = c.to_digit(10).unwrap() as u64;
        n = n.mul(&BigNat::from_u64(10)).add(&BigNat::from_u64(d));
    }
    n
}

// -----------------------------------------------------------------------------
// BigNat arithmetic
// -----------------------------------------------------------------------------

#[test]
fn bignat_arithmetic() {
    let a = big("340282366920938463463374607431768211456"); // 2^128
    let b = BigNat::from_u64(1000);
    assert_eq!(a.add(&b).to_decimal_string(), "340282366920938463463374607431768212456");
    assert_eq!(a.sub(&b).to_decimal_string(), "340282366920938463463374607431768210456");
    assert_eq!(a.mul(&b).to_decimal_string(), "340282366920938463463374607431768211456000");
    assert_eq!(a.div(&b).to_decimal_string(), "340282366920938463463374607431768211");
    assert_eq!(a.rem(&b).to_decimal_string(), "456");
    assert_eq!(BigNat::from_u64(3).pow(5).to_u64(), Some(243));
    assert_eq!(BigNat::from_u64(3).modpow(&BigNat::from_u64(5), &BigNat::from_u64(7)).to_u64(), Some(5));
    assert_eq!(BigNat::from_u64(5).shl(3).to_u64(), Some(40));
    assert_eq!(BigNat::from_u64(41).shr(3).to_u64(), Some(5));
    assert_eq!(BigNat::from_u64(0b1010).bitor(&BigNat::from_u64(0b0110)).to_u64(), Some(0b1110));
    assert_eq!(BigNat::from_u64(0b1010).bitand(&BigNat::from_u64(0b0110)).to_u64(), Some(0b0010));
    assert!(b.lt(&a));
    assert!(!a.lt(&b));
    assert!(a.equals(&big("340282366920938463463374607431768211456")));
    assert!(!a.equals(&b));
    assert_eq!(a.bits(), 129);
    assert_eq!(BigNat::zero().bits(), 0);
    assert!(BigNat::zero().is_zero());
    assert_eq!(a.to_u128(), None);
    assert_eq!(a.sub(&BigNat::from_u64(1)).to_u128(), Some(u128::MAX));
    assert_eq!(BigNat::from_u128(u128::MAX).to_u64(), None);
}

#[test]
fn bignat_bytes_and_digits() {
    let n = BigNat::from_u64(0x0102_0304);
    assert_eq!(n.to_bytes_be(), vec![1, 2, 3, 4]);
    assert_eq!(BigNat::zero().to_bytes_be(), vec![0]);
    assert_eq!(BigNat::from_bytes_be(&[0, 0, 1, 0]).to_u64(), Some(256));
    let a = big("18446744073709551621"); // 2^64 + 5
    assert_eq!(a.to_u32_digits(), vec![5, 0, 1]);
    assert!(BigNat::from_u32_digits(&vec![5, 0, 1, 0, 0]).equals(&a));
    assert_eq!(BigNat::zero().to_decimal_string(), "0");
}

// -----------------------------------------------------------------------------
// Primes and inverses
// -----------------------------------------------------------------------------

#[test]
fn primality() {
    assert!(!is_prime(&BigNat::from_u64(0)));
    assert!(!is_prime(&BigNat::from_u64(1)));
    assert!(is_prime(&BigNat::from_u64(2)));
    assert!(is_prime(&BigNat::from_u64(97)));
    assert!(!is_prime(&BigNat::from_u64(561))); // Carmichael number
    assert!(is_prime(&BigNat::from_u64(1_999_993)));
    assert!(is_prime(&big("2305843009213693951"))); // 2^61 - 1
    assert!(is_prime(&big("618970019642690137449562111"))); // 2^89 - 1
    assert!(is_prime(&big("170141183460469231731687303715884105727"))); // 2^127 - 1
    assert!(!is_prime(&big("1361129467683753853853498429727072845825"))); // 2^130 + 1
}

#[test]
fn next_primes() {
    assert_eq!(next_prime(&BigNat::from_u64(0)).unwrap().to_u64(), Some(2));
    assert_eq!(next_prime(&BigNat::from_u64(2)).unwrap().to_u64(), Some(3));
    assert_eq!(next_prime(&BigNat::from_u64(4)).unwrap().to_u64(), Some(5));
    assert_eq!(next_prime(&BigNat::from_u64(100)).unwrap().to_u64(), Some(101));
    assert_eq!(
        next_prime(&big("18446744073709551616")).unwrap().to_decimal_string(),
        "18446744073709551629"
    );
    assert_eq!(
        next_prime(&big("340282366920938463463374607431768211456")).unwrap().to_decimal_string(),
        "340282366920938463463374607431768211507"
    );
}

#[test]
fn next_prime_too_large() {
    let n = BigNat::from_u64(1).shl(513);
    match next_prime(&n) {
        Err(ObfuskeyError::MaximumValueError(m)) => {
            assert_eq!(m, "For integers larger than 512-bit, prime generation is not supported.")
        }
        _ => panic!("expected a MaximumValueError"),
    }
}

#[test]
fn generated_primes() {
    let phi = 1_618_033_988_749_894_912u64;
    assert_eq!(generate_prime(62, 6, phi).unwrap().to_u64(), Some(91904711771));
    assert_eq!(generate_prime(3, 6, phi).unwrap().to_u64(), Some(1181));
    assert_eq!(
        generate_prime(62, 20, phi).unwrap().to_decimal_string(),
        "1139781045006673835242867650056330771"
    );
}

#[test]
fn inverses() {
    assert_eq!(mod_inv_u128(3, 11).unwrap(), 4);
    assert_eq!(mod_inv_u128(12345, 56800235584).unwrap(), 41460261065);
    assert_eq!(mod_inv_u128(1, 1).unwrap(), 0);
    match mod_inv_u128(2, 4) {
        Err(ObfuskeyError::ValueError(m)) => {
            assert_eq!(m, "Modular inverse does not exist (values are not coprime).")
        }
        _ => panic!("expected a ValueError"),
    }
    let x = mod_inv_big(&BigNat::from_u64(12345), &BigNat::from_u64(56800235584)).unwrap();
    assert_eq!(x.to_u64(), Some(41460261065));
    assert!(matches!(
        mod_inv_big(&BigNat::from_u64(6), &BigNat::from_u64(9)),
        Err(ObfuskeyError::ValueError(_))
    ));
}

// -----------------------------------------------------------------------------
// Numerals
// -----------------------------------------------------------------------------

#[test]
fn decode_of_encode() {
    let alpha = Alphabet::new(alphabets::BASE94).unwrap();
    for v in [0u128, 1, 93, 94, 12345, u64::MAX as u128, u128::MAX] {
        let key = encode_u128(v, &alpha);
        assert_eq!(decode_u128(&key, &alpha).unwrap(), Some(v));
    }
    let big_value = BigNat::from_u128(u128::MAX).mul(&BigNat::from_u64(1000));
    let key = encode_big(&big_value, &alpha);
    assert!(decode_big(&key, &alpha).unwrap().equals(&big_value));
}

#[test]
fn decode_overflow_and_unknown() {
    let alpha = Alphabet::new(alphabets::BASE16).unwrap();
    // 33 hexadecimal digits do not fit in a u128
    assert_eq!(decode_u128("100000000000000000000000000000000", &alpha).unwrap(), None);
    assert!(matches!(decode_u128("12G", &alpha), Err(ObfuskeyError::UnknownKeyError)));
    assert!(matches!(decode_big("12G", &alpha), Err(ObfuskeyError::UnknownKeyError)));
    assert_eq!(
        decode_big("100000000000000000000000000000000", &alpha).unwrap().to_decimal_string(),
        "340282366920938463463374607431768211456"
    );
}

#[test]
fn alphabet_queries() {
    let alpha = Alphabet::new("xyz").unwrap();
    assert_eq!(alpha.base(), 3);
    assert_eq!(alpha.char_at(2), 'z');
    assert_eq!(alpha.first_char(), 'x');
    assert_eq!(alpha.index_of('y'), Some(1));
    assert_eq!(alpha.index_of('a'), None);
    assert_eq!(alpha.chars(), &['x', 'y', 'z']);
    assert_eq!(alpha.as_str(), "xyz");
    assert_eq!(alpha.describe(), "Alphabet('xyz')");
    let long = Alphabet::new(alphabets::BASE62).unwrap();
    assert_eq!(long.describe(), "Alphabet('0123456789...vwxyz')");
    // shortened by bytes: five two-byte letters make the first ten bytes
    let mixed = Alphabet::new("αβγδεabcdefghijk").unwrap();
    assert_eq!(mixed.describe(), "Alphabet('αβγδε...ghijk')");
    // 20 bytes in 14 characters are not shortened
    let short = Alphabet::new("αβγδεζabcdefgh").unwrap();
    assert_eq!(short.describe(), "Alphabet('αβγδεζabcdefgh')");
}

#[test]
fn alphabet_non_ascii() {
    let alpha = Alphabet::new("αβγδ").unwrap();
    assert_eq!(alpha.base(), 4);
    assert_eq!(alpha.index_of('γ'), Some(2));
    assert_eq!(encode_u128(5, &alpha), "ββ");
    assert_eq!(decode_u128("ββ", &alpha).unwrap(), Some(5));
    assert!(matches!(Alphabet::new("αβα"), Err(ObfuskeyError::DuplicateError)));
}

#[test]
fn alphabet_errors() {
    match Alphabet::new("a") {
        Err(ObfuskeyError::ValueError(m)) => assert_eq!(m, "Alphabet must contain at least 2 characters."),
        _ => panic!("expected a ValueError"),
    }
    assert!(matches!(Alphabet::new("abca"), Err(ObfuskeyError::DuplicateError)));
}

#[test]
fn prime_search_fits() {
    // the largest prime below 2^128 is 2^128 - 159
    let top = BigNat::from_u128(u128::MAX - 158);
    assert!(is_prime(&top));
    assert!(prime_search_fits_check(&BigNat::from_u128(u128::MAX - 200)));
    assert!(!prime_search_fits_check(&top));
    assert!(!prime_search_fits_check(&BigNat::from_u128(u128::MAX)));
    assert!(prime_search_fits_check(&BigNat::from_u64(0)));
    assert!(prime_search_fits_check(&BigNat::from_u64(1_000_000)));
    assert!(prime_search_fits_check(&BigNat::from_u128(u128::MAX).add(&BigNat::from_u64(1))));
}

fn sieve(limit: usize) -> Vec<bool> {
    let mut prime = vec![true; limit + 1];
    prime[0] = false;
    prime[1] = false;
    let mut i = 2;
    while i * i <= limit {
        if prime[i] {
            let mut j = i * i;
            while j <= limit {
                prime[j] = false;
                j += i;
            }
        }
        i += 1;
    }
    prime
}

#[test]
fn primes_pass_test_law() {
    let prime = sieve(3000);
    for n in 0..=3000u64 {
        assert_eq!(is_prime(&BigNat::from_u64(n)), prime[n as usize], "n = {}", n);
    }
    // primes above two million go through Miller-Rabin
    for p in [2_000_003u64, 1_000_000_007, 4_294_967_291, 18_446_744_073_709_551_557] {
        assert!(is_prime(&BigNat::from_u64(p)));
    }
}

#[test]
fn next_prime_skips_no_prime_law() {
    let prime = sieve(3100);
    for n in 0..3000u64 {
        let p = next_prime(&BigNat::from_u64(n)).unwrap().to_u64().unwrap();
        let expected = (n + 1..).find(|&m| prime[m as usize]).unwrap();
        assert_eq!(p, expected, "n = {}", n);
    }
}

#[test]
fn decode_padded_numeral_law() {
    let alpha = Alphabet::new(alphabets::BASE62).unwrap();
    for v in [0u128, 7, 12345, u128::MAX] {
        let key = format!("000{}", encode_u128(v, &alpha));
        assert_eq!(decode_u128(&key, &alpha).unwrap(), Some(v));
    }
}
