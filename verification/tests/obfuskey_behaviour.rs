use obfuskey::{alphabets, BigNat, Obfuskey, ObfuskeyError};

#[test]
fn key_value_roundtrip_law() {
    // every value up to the maximum comes back, and distinct values get
    // distinct keys
    let mut obf = Obfuskey::new("abc", Some(4), None).unwrap();
    let mut keys = Vec::new();
    for v in 0u64..81 {
        let key = obf.get_key_u64(v).unwrap();
        assert_eq!(key.chars().count(), 4);
        assert_eq!(obf.get_value_u64(&key).unwrap(), v);
        assert!(!keys.contains(&key));
        keys.push(key);
    }
}

#[test]
fn key_value_roundtrip_big_law() {
    let mut obf = Obfuskey::new(alphabets::BASE62, Some(22), None).unwrap();
    let large = BigNat::from_u128(u128::MAX);
    let key = obf.get_key_big(&large).unwrap();
    assert_eq!(key.chars().count(), 22);
    assert!(obf.get_value_big(&key).unwrap().equals(&large));
    let max = obf.maximum_value().clone();
    let key = obf.get_key_big(&max).unwrap();
    assert!(obf.get_value_big(&key).unwrap().equals(&max));
}

#[test]
fn u64_and_big_paths_agree_law() {
    let mut obf = Obfuskey::new(alphabets::BASE36, Some(12), Some(999_999_937)).unwrap();
    for v in [1u64, 2, 77, 1 << 40, 4_738_381_338_321_616_895] {
        let k1 = obf.get_key_u64(v).unwrap();
        let k2 = obf.get_key_big(&BigNat::from_u64(v)).unwrap();
        assert_eq!(k1, k2);
        assert_eq!(obf.get_value_big(&k1).unwrap().to_u64(), Some(v));
    }
}

#[test]
fn explicit_multiplier_key() {
    // 5 * 127 = 635 = 2*243 + 1*81 + 2*27 + 1*9 + 1*3 + 2 in base 3
    let mut obf = Obfuskey::new("abc", Some(6), Some(127)).unwrap();
    assert_eq!(obf.get_key_u64(5).unwrap(), "cbcbbc");
    assert_eq!(obf.get_value_u64("cbcbbc").unwrap(), 5);
}

#[test]
fn generated_multiplier_keys() {
    let mut obf = Obfuskey::new("abc", Some(6), None).unwrap();
    assert!(obf.current_multiplier().is_none());
    assert_eq!(obf.get_key_u64(1).unwrap(), "bcbcac");
    assert_eq!(obf.current_multiplier().unwrap().to_u64(), Some(1181));
    assert_eq!(obf.get_key_u64(728).unwrap(), "babacb");
}

#[test]
fn maximum_value_error_message() {
    let mut obf = Obfuskey::new("abc", Some(6), None).unwrap();
    match obf.get_key_u64(729) {
        Err(ObfuskeyError::MaximumValueError(m)) => assert_eq!(m, "The maximum value possible is 728"),
        _ => panic!("expected a MaximumValueError"),
    }
    match obf.get_key_big(&BigNat::from_u64(10_000)) {
        Err(ObfuskeyError::MaximumValueError(m)) => assert_eq!(m, "The maximum value possible is 728"),
        _ => panic!("expected a MaximumValueError"),
    }
}

#[test]
fn value_too_large_for_u64() {
    let mut obf = Obfuskey::new(alphabets::BASE62, Some(22), None).unwrap();
    let key = obf.get_key_big(&BigNat::from_u128(u128::MAX)).unwrap();
    match obf.get_value_u64(&key) {
        Err(ObfuskeyError::MaximumValueError(m)) => assert_eq!(m, "Value does not fit in u64."),
        _ => panic!("expected a MaximumValueError"),
    }
}

#[test]
fn key_errors_big() {
    let mut obf = Obfuskey::new("abc", Some(6), None).unwrap();
    assert!(matches!(obf.get_value_big("abcxyz"), Err(ObfuskeyError::UnknownKeyError)));
    assert!(matches!(obf.get_value_big("aaa"), Err(ObfuskeyError::KeyLengthError)));
    assert!(obf.get_value_big("aaaaaa").unwrap().is_zero());
}

#[test]
fn no_inverse_error() {
    // 3 shares a factor with 3^6
    let mut obf = Obfuskey::new("abc", Some(6), Some(3)).unwrap();
    let key = obf.get_key_u64(5).unwrap();
    match obf.get_value_u64(&key) {
        Err(ObfuskeyError::ValueError(m)) => {
            assert_eq!(m, "Modular inverse does not exist (values are not coprime).")
        }
        _ => panic!("expected a ValueError"),
    }
}

#[test]
fn big_multiplier_errors() {
    assert!(matches!(
        Obfuskey::with_big_multiplier("abc", 6, BigNat::from_u64(100)),
        Err(ObfuskeyError::MultiplierError)
    ));
    assert!(matches!(
        Obfuskey::with_big_multiplier("aab", 6, BigNat::from_u64(101)),
        Err(ObfuskeyError::DuplicateError)
    ));
    assert!(matches!(Obfuskey::new("a", None, None), Err(ObfuskeyError::ValueError(_))));
}

#[test]
fn properties() {
    let mut obf = Obfuskey::new(alphabets::BASE16, None, None).unwrap();
    assert_eq!(obf.key_length(), 6);
    assert_eq!(obf.alphabet().as_str(), "0123456789ABCDEF");
    assert_eq!(obf.maximum_value().to_u64(), Some(16_777_215));
    assert_eq!(obf.prime_multiplier_scaled(), 1_618_033_988_749_894_912);
    assert_eq!(
        obf.describe("1.618033988749895"),
        "Obfuskey(alphabet='0123456789ABCDEF', key_length=6, multiplier=auto (prime_mult=1.618033988749895))"
    );
    let m = obf.multiplier().unwrap().to_u64().unwrap();
    assert_eq!(obf.describe("1.618033988749895"), format!(
        "Obfuskey(alphabet='0123456789ABCDEF', key_length=6, multiplier={})",
        m
    ));
    obf.set_prime_multiplier(1_750_000_000_000_000_000);
    assert!(obf.current_multiplier().is_none());
    assert_eq!(obf.prime_multiplier_scaled(), 1_750_000_000_000_000_000);
}

#[test]
fn error_messages() {
    assert_eq!(ObfuskeyError::DuplicateError.message(), "The alphabet contains duplicate characters.");
    assert_eq!(ObfuskeyError::MultiplierError.message(), "The multiplier must be an odd integer.");
    assert_eq!(
        ObfuskeyError::UnknownKeyError.message(),
        "The key contains characters not found in the current alphabet."
    );
    assert_eq!(ObfuskeyError::KeyLengthError.message(), "The key length does not match the set length.");
    assert_eq!(ObfuskeyError::ValueError("x".to_string()).message(), "x");
    assert_eq!(ObfuskeyError::NegativeValueError("n".to_string()).message(), "n");
}

#[test]
fn results_stable_law() {
    let mut obf = Obfuskey::new(alphabets::BASE58, Some(5), None).unwrap();
    let first = obf.get_key_u64(4242).unwrap();
    let second = obf.get_key_u64(4242).unwrap();
    assert_eq!(first, second);
    assert_eq!(obf.get_key_big(&BigNat::from_u64(4242)).unwrap(), first);
    assert_eq!(obf.get_value_u64(&first).unwrap(), obf.get_value_u64(&first).unwrap());
}

#[test]
fn multiplier_generation_check() {
    let obf = Obfuskey::new("abc", Some(6), None).unwrap();
    assert!(obf.can_generate_multiplier());
    let fixed = Obfuskey::new("abc", Some(6), Some(127)).unwrap();
    assert!(fixed.can_generate_multiplier());
    let wide = Obfuskey::new(alphabets::BASE62, Some(40), None).unwrap();
    assert!(wide.can_generate_multiplier());
}
