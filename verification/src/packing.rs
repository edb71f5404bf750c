//! The arithmetic of packing field values into one number: each field holds
//! its value in `bits` bits starting at bit `shift`.
use vstd::arithmetic::div_mod::{
    lemma_add_mod_noop_right, lemma_breakdown, lemma_div_multiples_vanish, lemma_hoist_over_denominator,
    lemma_mod_multiples_vanish, lemma_truncate_middle,
};
use vstd::arithmetic::power::lemma_pow0;
use vstd::arithmetic::power2::{lemma_pow2_adds, lemma_pow2_unfold, pow2};
use vstd::bits::{
    low_bits_mask, lemma_u64_low_bits_mask_is_mod, lemma_u64_pow2_no_overflow, lemma_u64_shl_is_mul,
    lemma_u64_shr_is_div,
};
use vstd::prelude::*;

use crate::bignat::{bytes_be_value, nat_bitand, nat_bitor, two_pow};
use crate::math::{lemma_two_pow_128, lemma_two_pow_adds, lemma_two_pow_monotone, lemma_two_pow_positive};
use crate::obfusbit_schema::{
    lemma_sum_bits_skip, lemma_sum_bits_skip_monotone, shift_of, sum_bits, FieldSchema,
};

verus! {

// -----------------------------------------------------------------------------
// Powers of two
// -----------------------------------------------------------------------------
/// The two definitions of `2^n` agree.
pub proof fn lemma_two_pow_is_pow2(n: nat)
    ensures
        two_pow(n) == pow2(n),
    decreases n,
{
    if n == 0 {
        lemma_pow0(2);
    } else {
        lemma_two_pow_is_pow2((n - 1) as nat);
        lemma_pow2_unfold(n);
    }
}

// -----------------------------------------------------------------------------
// Bitwise operations on naturals
// -----------------------------------------------------------------------------
/// OR with a number whose low `s` bits are clear adds, when the other number
/// fits in `s` bits.
pub proof fn lemma_bitor_shifted(a: nat, b: nat, s: nat)
    requires
        a < two_pow(s),
    ensures
        nat_bitor(a, b * two_pow(s)) == a + b * two_pow(s),
    decreases s,
{
    let c = b * two_pow(s);
    if s == 0 {
        assert(two_pow(s) == 1);
        assert(c == b * 1);
    } else if a == 0 {
    } else if b == 0 {
        assert(c == 0);
    } else {
        let p = two_pow((s - 1) as nat);
        lemma_two_pow_positive((s - 1) as nat);
        assert(two_pow(s) == 2 * p);
        assert(c == 2 * (b * p)) by (nonlinear_arith)
            requires
                c == b * two_pow(s),
                two_pow(s) == 2 * p,
        ;
        assert(b * p > 0) by (nonlinear_arith)
            requires
                b > 0,
                p > 0,
        ;
        assert(c % 2 == 0 && c / 2 == b * p);
        lemma_bitor_shifted(a / 2, b, (s - 1) as nat);
        assert(nat_bitor(a, c) == (if a % 2 == 1 || c % 2 == 1 {
            1nat
        } else {
            0nat
        }) + 2 * nat_bitor(a / 2, c / 2));
    }
}

/// AND with `2^n - 1` keeps the low `n` bits.
pub proof fn lemma_bitand_low_mask(x: nat, n: nat)
    ensures
        nat_bitand(x, (two_pow(n) - 1) as nat) == x % two_pow(n),
    decreases n,
{
    lemma_two_pow_positive(n);
    if n == 0 {
    } else if x == 0 {
    } else {
        let p = two_pow((n - 1) as nat);
        lemma_two_pow_positive((n - 1) as nat);
        let mask = (two_pow(n) - 1) as nat;
        assert(mask == 2 * p - 1);
        assert(mask % 2 == 1 && mask / 2 == p - 1);
        lemma_bitand_low_mask(x / 2, (n - 1) as nat);
        lemma_breakdown(x as int, 2, p as int);
        assert(nat_bitand(x, mask) == (if x % 2 == 1 && mask % 2 == 1 {
            1nat
        } else {
            0nat
        }) + 2 * nat_bitand(x / 2, mask / 2));
    }
}

// -----------------------------------------------------------------------------
// Shifts and masks on machine words
// -----------------------------------------------------------------------------
/// A right shift of a `u64` divides by a power of two.
pub proof fn lemma_u64_shr(x: u64, s: u64)
    requires
        s < 64,
    ensures
        x >> s == x as nat / two_pow(s as nat),
{
    lemma_u64_shr_is_div(x, s);
    lemma_two_pow_is_pow2(s as nat);
}

/// `(1 << b) - 1` is the mask of the low `b` bits of a `u64`.
pub proof fn lemma_u64_low_mask(x: u64, b: u64)
    requires
        b < 64,
    ensures
        (1u64 << b) as nat == two_pow(b as nat),
        x & (((1u64 << b) - 1) as u64) == x as nat % two_pow(b as nat),
{
    lemma_two_pow_is_pow2(b as nat);
    lemma_u64_pow2_no_overflow(b as nat);
    lemma_u64_shl_is_mul(1, b);
    lemma_u64_low_bits_mask_is_mod(x, b as nat);
    assert(low_bits_mask(b as nat) as u64 == (((1u64 << b) - 1) as u64));
}

/// A left shift of a `u64` multiplies by a power of two and drops what
/// passes bit 63.
pub proof fn lemma_u64_shl(x: u64, s: u64)
    requires
        s < 64,
    ensures
        (x << s) as nat == (x as nat * two_pow(s as nat)) % two_pow(64),
{
    lemma_two_pow_128();
    lemma_two_pow_is_pow2(s as nat);
    lemma_two_pow_is_pow2(64);
    if s == 0 {
        assert(x << 0u64 == x) by (bit_vector);
        assert(x as nat * 1 == x as nat);
    } else {
        let m: u64 = u64::MAX >> s;
        assert(x << s == (x & (u64::MAX >> s)) << s) by (bit_vector)
            requires
                s < 64,
        ;
        let a = two_pow((64 - s) as nat);
        let b = two_pow(s as nat);
        lemma_two_pow_adds((64 - s) as nat, s as nat);
        lemma_two_pow_positive((64 - s) as nat);
        lemma_two_pow_positive(s as nat);
        assert(a * b == 0x1_0000_0000_0000_0000);
        lemma_u64_shr_is_div(u64::MAX, s);
        assert(m == (a * b - 1) / (b as int));
        assert((a * b - 1) / (b as int) == a - 1) by (nonlinear_arith)
            requires
                a >= 1,
                b >= 1,
        {
            assert(a * b - 1 == (a - 1) * b + (b - 1));
        }
        lemma_two_pow_is_pow2((64 - s) as nat);
        lemma_u64_low_bits_mask_is_mod(x, (64 - s) as nat);
        lemma_u64_pow2_no_overflow((64 - s) as nat);
        assert(low_bits_mask((64 - s) as nat) as u64 == m);
        let y: u64 = x & m;
        assert(y as nat == x as nat % a);
        assert(y * b < a * b) by (nonlinear_arith)
            requires
                y < a,
                b >= 1,
        ;
        lemma_u64_shl_is_mul(y, s);
        lemma_truncate_middle(x as int, b as int, a as int);
        assert(b * x == x * b) by (nonlinear_arith);
        assert(b * a == a * b) by (nonlinear_arith);
        assert(b * y == y * b) by (nonlinear_arith);
    }
}

/// OR with a shifted `u64` adds, when the other number lies below the shift.
pub proof fn lemma_u64_or_shifted(acc: u64, x: u64, s: u64)
    requires
        s < 64,
        acc < (1u64 << s),
    ensures
        (acc | (x << s)) as nat == acc as nat + (x << s) as nat,
{
    assert((acc | (x << s)) == acc + (x << s)) by (bit_vector)
        requires
            s < 64,
            acc < (1u64 << s),
    ;
}

// -----------------------------------------------------------------------------
// Packing
// -----------------------------------------------------------------------------
/// The number that holds `vs[k]` in field `k` of `d`, for the fields from
/// `i` on.
pub open spec fn pack_from(d: Seq<FieldSchema>, vs: Seq<nat>, i: int) -> nat
    decreases d.len() - i,
{
    if i < 0 || i >= d.len() {
        0
    } else {
        vs[i] * two_pow(shift_of(d, i)) + pack_from(d, vs, i + 1)
    }
}

/// The number that holds `vs[k]` in field `k` of `d`, for every field.
pub open spec fn packed_value(d: Seq<FieldSchema>, vs: Seq<nat>) -> nat {
    pack_from(d, vs, 0)
}

/// Each value fits in its field.
pub open spec fn values_fit(d: Seq<FieldSchema>, vs: Seq<nat>) -> bool {
    &&& vs.len() == d.len()
    &&& forall|k: int| 0 <= k < d.len() ==> #[trigger] vs[k] < two_pow(d[k].bits as nat)
}

/// The value that field `k` holds in `packed`.
pub open spec fn field_of(packed: nat, d: Seq<FieldSchema>, k: int) -> nat {
    (packed / two_pow(shift_of(d, k))) % two_pow(d[k].bits as nat)
}

/// A field lies wholly above the fields after it.
pub proof fn lemma_shift_above(d: Seq<FieldSchema>, j: int, k: int)
    requires
        0 <= j < k < d.len(),
    ensures
        shift_of(d, j) >= shift_of(d, k) + d[k].bits,
{
    lemma_sum_bits_skip(d, k);
    lemma_sum_bits_skip_monotone(d, j + 1, k);
}

/// The fields from `i` on fill the low bits, up to the shift of field `i - 1`.
pub proof fn lemma_pack_from_bound(d: Seq<FieldSchema>, vs: Seq<nat>, i: int)
    requires
        values_fit(d, vs),
        0 <= i <= d.len(),
    ensures
        pack_from(d, vs, i) < two_pow(sum_bits(d.skip(i))),
    decreases d.len() - i,
{
    if i == d.len() {
        crate::obfusbit_schema::lemma_sum_bits_empty(d);
    } else {
        lemma_pack_from_bound(d, vs, i + 1);
        lemma_sum_bits_skip(d, i);
        let s = shift_of(d, i);
        let p = two_pow(s);
        let q = two_pow(d[i].bits as nat);
        lemma_two_pow_adds(d[i].bits as nat, s);
        assert(vs[i] < q);
        assert(vs[i] * p + p <= q * p) by (nonlinear_arith)
            requires
                vs[i] < q,
                p >= 0,
        ;
        assert(q * p == two_pow(d[i].bits as nat) * two_pow(s));
    }
}

/// Reading field `k` back from the fields from `i` on gives `vs[k]`.
pub proof fn lemma_field_of_pack_from(d: Seq<FieldSchema>, vs: Seq<nat>, i: int, k: int)
    requires
        values_fit(d, vs),
        0 <= i <= k < d.len(),
    ensures
        field_of(pack_from(d, vs, i), d, k) == vs[k],
    decreases k - i,
{
    let s = shift_of(d, k);
    let p = two_pow(s);
    let q = two_pow(d[k].bits as nat);
    lemma_two_pow_positive(s);
    lemma_two_pow_positive(d[k].bits as nat);
    if i == k {
        lemma_pack_from_bound(d, vs, k + 1);
        let rest = pack_from(d, vs, k + 1);
        assert(rest < p);
        assert(pack_from(d, vs, k) == vs[k] * p + rest);
        assert((vs[k] * p + rest) / p == vs[k]) by (nonlinear_arith)
            requires
                rest < p,
                p > 0,
        {
            lemma_hoist_over_denominator(rest as int, vs[k] as int, p);
        }
        assert(vs[k] < q);
        assert(vs[k] % q == vs[k]) by (nonlinear_arith)
            requires
                vs[k] < q,
        ;
    } else {
        lemma_field_of_pack_from(d, vs, i + 1, k);
        lemma_shift_above(d, i, k);
        let si = shift_of(d, i);
        let gap = (si - s - d[k].bits) as nat;
        lemma_two_pow_adds(gap, d[k].bits as nat);
        lemma_two_pow_adds((gap + d[k].bits) as nat, s);
        let g = two_pow(gap);
        let m = vs[i] * g;
        let rest = pack_from(d, vs, i + 1);
        assert(vs[i] * two_pow(si) == (m * q) * p) by (nonlinear_arith)
            requires
                two_pow(si) == (g * q) * p,
                m == vs[i] * g,
        ;
        assert(pack_from(d, vs, i) == (m * q) * p + rest);
        lemma_hoist_over_denominator(rest as int, (m * q) as int, p);
        assert((((m * q) * p + rest) / p) == (m * q) + rest / p);
        lemma_mod_multiples_vanish(m as int, (rest / p) as int, q as int);
        assert(q * m == m * q) by (nonlinear_arith);
    }
}

/// Every field of the packed number reads back its value.
pub proof fn lemma_field_of_packed(d: Seq<FieldSchema>, vs: Seq<nat>, k: int)
    requires
        values_fit(d, vs),
        0 <= k < d.len(),
    ensures
        field_of(packed_value(d, vs), d, k) == vs[k],
{
    lemma_field_of_pack_from(d, vs, 0, k);
}

/// The packed number fits in the total width.
pub proof fn lemma_packed_bound(d: Seq<FieldSchema>, vs: Seq<nat>)
    requires
        values_fit(d, vs),
    ensures
        packed_value(d, vs) < two_pow(sum_bits(d)),
{
    lemma_pack_from_bound(d, vs, 0);
    assert(d.skip(0) =~= d);
}

/// One step of packing into a `u64`: OR the shifted value above the fields
/// packed so far.
pub proof fn lemma_pack_step_u64(acc: u64, v: u64, s: u64, rest: nat)
    requires
        s < 64,
        acc == rest,
        rest < two_pow(s as nat),
    ensures
        (acc | (v << s)) as nat == (v as nat * two_pow(s as nat) + rest) % two_pow(64),
{
    lemma_two_pow_128();
    lemma_u64_low_mask(0, s);
    lemma_u64_shl(v, s);
    lemma_u64_or_shifted(acc, v, s);
    let t = (v << s) as nat;
    let w = v as nat * two_pow(s as nat);
    vstd::arithmetic::div_mod::lemma_add_mod_noop(w as int, rest as int, two_pow(64) as int);
    assert((acc | (v << s)) as nat <= u64::MAX);
    assert(rest % two_pow(64) == rest);
    assert((t + rest) % two_pow(64) == t + rest);
}

/// The field at shift `s` and width `b` of a `u64`, read with a shift and a
/// mask.
pub proof fn lemma_extract_u64(x: u64, s: u64, b: u32)
    requires
        s < 64,
    ensures
        b < 64 ==> ((x >> s) & (((1u64 << (b as u64)) - 1) as u64)) as nat == (x as nat / two_pow(
            s as nat,
        )) % two_pow(b as nat),
        b >= 64 ==> ((x >> s) & u64::MAX) as nat == (x as nat / two_pow(s as nat)) % two_pow(
            b as nat,
        ),
{
    lemma_u64_shr(x, s);
    let y: u64 = x >> s;
    if b < 64 {
        lemma_u64_low_mask(y, b as u64);
    } else {
        assert(y & u64::MAX == y) by (bit_vector);
        lemma_two_pow_128();
        lemma_two_pow_monotone(64, b as nat);
        vstd::arithmetic::div_mod::lemma_small_mod(y as nat, two_pow(b as nat));
    }
}

// -----------------------------------------------------------------------------
// Bytes
// -----------------------------------------------------------------------------
/// `n` big-endian bytes hold less than `2^(8n)`.
pub proof fn lemma_bytes_be_value_bound(b: Seq<u8>)
    ensures
        bytes_be_value(b) < two_pow(8 * b.len()),
    decreases b.len(),
{
    if b.len() == 0 {
    } else {
        let n = b.len();
        lemma_bytes_be_value_bound(b.drop_last());
        lemma_two_pow_adds(8 * (n - 1) as nat, 8);
        reveal_with_fuel(two_pow, 9);
        assert(two_pow(8 * n) == two_pow(8 * (n - 1) as nat) * 256) by {
            assert((8 * (n - 1) + 8) as nat == 8 * n);
        }
        let v = bytes_be_value(b.drop_last());
        let t = two_pow(8 * (n - 1) as nat);
        assert(v * 256 + 255 < t * 256) by (nonlinear_arith)
            requires
                v < t,
        ;
    }
}

/// Reversing twice gives back the sequence.
pub proof fn lemma_reverse_reverse(b: Seq<u8>)
    ensures
        b.reverse().reverse() == b,
{
    assert(b.reverse().reverse() =~= b);
}

/// The `len` big-endian bytes of `x`.
pub fn be_bytes_u64(x: u64, len: usize) -> (r: Vec<u8>)
    requires
        len <= 8,
        x < two_pow(8 * len as nat),
    ensures
        r.len() == len,
        bytes_be_value(r@) == x,
{
    let mut r: Vec<u8> = Vec::new();
    let mut i: usize = 0;
    proof {
        lemma_two_pow_positive(8 * len as nat);
        vstd::arithmetic::div_mod::lemma_div_pos_is_pos(x as int, two_pow(8 * len as nat) as int);
        vstd::arithmetic::div_mod::lemma_basic_div(x as int, two_pow(8 * len as nat) as int);
    }
    while i < len
        invariant
            len <= 8,
            i <= len,
            r.len() == i,
            bytes_be_value(r@) == x as nat / two_pow(8 * (len - i) as nat),
        decreases len - i,
    {
        let sh: u64 = 8 * (len - 1 - i) as u64;
        proof {
            lemma_u64_shr(x, sh);
            let a = two_pow(sh as nat);
            lemma_two_pow_positive(sh as nat);
            lemma_two_pow_adds(sh as nat, 8);
            reveal_with_fuel(two_pow, 9);
            assert((sh + 8) as nat == 8 * (len - i) as nat);
            vstd::arithmetic::div_mod::lemma_div_denominator(x as int, a as int, 256);
            vstd::arithmetic::div_mod::lemma_fundamental_div_mod((x as nat / a) as int, 256);
            assert(r@.push((((x >> sh) % 256) as u8)).drop_last() =~= r@);
        }
        let byte: u8 = ((x >> sh) % 256) as u8;
        r.push(byte);
        i = i + 1;
    }
    proof {
        assert(i == len);
        assert(8 * (len - i) as nat == 0);
        assert(two_pow(0) == 1);
        assert(x as nat / 1 == x);
    }
    r
}

/// The number that big-endian bytes write, for at most eight bytes.
pub fn u64_from_be(bytes: &Vec<u8>) -> (r: u64)
    requires
        bytes.len() <= 8,
    ensures
        r == bytes_be_value(bytes@),
{
    let n = bytes.len();
    let mut r: u64 = 0;
    let mut i: usize = 0;
    while i < n
        invariant
            n == bytes.len(),
            n <= 8,
            i <= n,
            r == bytes_be_value(bytes@.take(i as int)),
        decreases n - i,
    {
        proof {
            assert(bytes@.take(i + 1).drop_last() =~= bytes@.take(i as int));
            lemma_bytes_be_value_bound(bytes@.take(i + 1));
            lemma_two_pow_monotone(8 * (i + 1) as nat, 64);
            lemma_two_pow_128();
        }
        r = r * 256 + bytes[i] as u64;
        i = i + 1;
    }
    proof {
        assert(bytes@.take(n as int) =~= bytes@);
    }
    r
}

/// The bytes in reverse order.
pub fn reversed(v: &[u8]) -> (r: Vec<u8>)
    ensures
        r@ == v@.reverse(),
{
    let n = v.len();
    let mut r: Vec<u8> = Vec::new();
    let mut i: usize = 0;
    while i < n
        invariant
            n == v@.len(),
            i <= n,
            r.len() == i,
            forall|j: int| 0 <= j < i ==> #[trigger] r@[j] == v@[n - 1 - j],
        decreases n - i,
    {
        r.push(v[n - 1 - i]);
        i = i + 1;
    }
    proof {
        assert(r@ =~= v@.reverse());
    }
    r
}

/// A copy of the bytes.
pub fn copied(v: &[u8]) -> (r: Vec<u8>)
    ensures
        r@ == v@,
{
    let n = v.len();
    let mut r: Vec<u8> = Vec::new();
    let mut i: usize = 0;
    while i < n
        invariant
            n == v@.len(),
            i <= n,
            r@ == v@.take(i as int),
        decreases n - i,
    {
        r.push(v[i]);
        proof {
            assert(r@ =~= v@.take(i + 1));
        }
        i = i + 1;
    }
    proof {
        assert(v@.take(n as int) =~= v@);
    }
    r
}

/// Big-endian bytes that start with a nonzero byte write at least
/// `2^(8(n-1))`.
pub proof fn lemma_bytes_be_value_lower(b: Seq<u8>)
    requires
        b.len() > 0,
        b[0] != 0,
    ensures
        bytes_be_value(b) >= two_pow(8 * (b.len() - 1) as nat),
    decreases b.len(),
{
    let n = b.len();
    if n == 1 {
        assert(b.drop_last().len() == 0);
        assert(two_pow(0) == 1);
    } else {
        lemma_bytes_be_value_lower(b.drop_last());
        lemma_two_pow_adds(8 * (n - 2) as nat, 8);
        reveal_with_fuel(two_pow, 9);
        assert((8 * (n - 2) + 8) as nat == 8 * (n - 1) as nat);
    }
}

/// Zeros in front do not change the number that bytes write.
pub proof fn lemma_bytes_be_value_zeros(z: Seq<u8>, b: Seq<u8>)
    requires
        forall|i: int| 0 <= i < z.len() ==> z[i] == 0,
    ensures
        bytes_be_value(z + b) == bytes_be_value(b),
    decreases z.len() + b.len(),
{
    if b.len() == 0 {
        assert(z + b =~= z);
        if z.len() > 0 {
            lemma_bytes_be_value_zeros(z.drop_last(), b);
            assert(z.drop_last() + b =~= z.drop_last());
        }
    } else {
        assert((z + b).drop_last() =~= z + b.drop_last());
        lemma_bytes_be_value_zeros(z, b.drop_last());
    }
}

} // verus!
