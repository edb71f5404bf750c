//! Predefined alphabets.
use vstd::prelude::*;

verus! {

/// Hexadecimal digits, upper case.
pub const BASE16: &'static str = "0123456789ABCDEF";

/// RFC 4648 base-32 digits, digits first.
pub const BASE32: &'static str = "234567ABCDEFGHIJKLMNOPQRSTUVWXYZ";

/// Digits and upper-case letters.
pub const BASE36: &'static str = "0123456789ABCDEFGHIJKLMNOPQRSTUVWXYZ";

/// Digits and consonants of both cases.
pub const BASE52: &'static str = "0123456789BCDFGHJKLMNPQRSTVWXYZbcdfghjklmnpqrstvwxyz";

/// Digits and letters without the easily confused `0`, `1`, `I`, `O`, `l`, `o`.
pub const BASE56: &'static str = "23456789ABCDEFGHJKLMNPQRSTUVWXYZabcdefghijkmnpqrstuvwxyz";

/// Bitcoin-style base 58.
pub const BASE58: &'static str = "123456789ABCDEFGHJKLMNPQRSTUVWXYZabcdefghijkmnopqrstuvwxyz";

/// Digits, upper-case and lower-case letters.
pub const BASE62: &'static str = "0123456789ABCDEFGHIJKLMNOPQRSTUVWXYZabcdefghijklmnopqrstuvwxyz";

/// `BASE62` followed by `+` and `/`.
pub const BASE64: &'static str = "0123456789ABCDEFGHIJKLMNOPQRSTUVWXYZabcdefghijklmnopqrstuvwxyz+/";

/// `BASE62` followed by `-` and `_`.
pub const BASE64_URL_SAFE: &'static str = "0123456789ABCDEFGHIJKLMNOPQRSTUVWXYZabcdefghijklmnopqrstuvwxyz-_";

/// Every printable ASCII character from `!` to `~`.
pub const BASE94: &'static str = "!\"#$%&'()*+,-./0123456789:;<=>?@ABCDEFGHIJKLMNOPQRSTUVWXYZ[\\]^_`abcdefghijklmnopqrstuvwxyz{|}~";

} // verus!
