//! Writing numbers with the characters of an alphabet.
use vstd::prelude::*;

use crate::alphabet::Alphabet;
use crate::bignat::BigNat;
use crate::numeral::{digits_of, encode_spec, lemma_digits_of_bounded};
use crate::text::string_push;

verus! {

/// Writes the digits `tail` (most significant first) with the alphabet.
fn digits_to_string(alphabet: &Alphabet, ds: &Vec<usize>, Ghost(tail): Ghost<Seq<nat>>) -> (r:
    String)
    requires
        alphabet.wf(),
        tail.len() == ds.len(),
        forall|j: int| 0 <= j < ds.len() ==> tail[j] == ds@[ds.len() - 1 - j],
        forall|j: int| 0 <= j < tail.len() ==> #[trigger] tail[j] < alphabet@.len(),
    ensures
        r@ == tail.map_values(|d: nat| alphabet@[d as int]),
{
    let n = ds.len();
    let mut s = String::new();
    let mut i: usize = n;
    while i > 0
        invariant
            alphabet.wf(),
            i <= n,
            n == ds.len(),
            tail.len() == n,
            forall|j: int| 0 <= j < n ==> tail[j] == ds@[n - 1 - j],
            forall|j: int| 0 <= j < tail.len() ==> #[trigger] tail[j] < alphabet@.len(),
            s@ == tail.take(n - i).map_values(|d: nat| alphabet@[d as int]),
        decreases i,
    {
        i = i - 1;
        let d = ds[i];
        proof {
            assert(tail[n - 1 - i] == d);
        }
        string_push(&mut s, alphabet.char_at(d));
        proof {
            assert(tail.take(n - i).map_values(|d: nat| alphabet@[d as int]) =~= tail.take(
                n - i - 1,
            ).map_values(|d: nat| alphabet@[d as int]).push(alphabet@[d as int]));
        }
    }
    proof {
        assert(tail.take(n as int) =~= tail);
    }
    s
}

/// Encode a u128 value to a string using the given alphabet.
pub fn encode_u128(value: u128, alphabet: &Alphabet) -> (r: String)
    requires
        alphabet.wf(),
    ensures
        r@ == encode_spec(value as nat, alphabet@),
{
    let base = alphabet.base();
    let b = base as u128;
    let ghost bn = base as nat;
    proof {
        lemma_digits_of_bounded(value as nat, bn);
    }
    if value < b {
        let mut s = String::new();
        string_push(&mut s, alphabet.char_at(value as usize));
        proof {
            assert(digits_of(value as nat, bn) == seq![value as nat]);
            assert(s@ =~= encode_spec(value as nat, alphabet@));
        }
        return s;
    }
    let mut ds: Vec<usize> = Vec::new();
    let mut val: u128 = value;
    let ghost mut tail: Seq<nat> = Seq::empty();
    while val > 0
        invariant
            bn == b,
            bn <= usize::MAX,
            bn == alphabet@.len(),
            bn >= 2,
            val > 0 ==> digits_of(value as nat, bn) == digits_of(val as nat, bn) + tail,
            val == 0 ==> digits_of(value as nat, bn) == tail,
            tail.len() == ds.len(),
            forall|j: int| 0 <= j < ds.len() ==> tail[j] == ds@[ds.len() - 1 - j],
            forall|j: int| 0 <= j < tail.len() ==> #[trigger] tail[j] < bn,
        decreases val,
    {
        let d = (val % b) as usize;
        proof {
            vstd::arithmetic::div_mod::lemma_mod_bound(val as int, b as int);
            assert(d as nat == (val % b) as nat);
            if val < b {
                vstd::arithmetic::div_mod::lemma_small_mod(val as nat, b as nat);
                vstd::arithmetic::div_mod::lemma_basic_div(val as int, b as int);
            } else {
                vstd::arithmetic::div_mod::lemma_div_is_ordered(b as int, val as int, b as int);
                vstd::arithmetic::div_mod::lemma_div_by_self(b as int);
            }
            let old_tail = tail;
            tail = seq![d as nat] + old_tail;
            if val >= b {
                assert(digits_of(val as nat, bn) == digits_of((val / b) as nat, bn).push(
                    (val % b) as nat,
                ));
                assert(digits_of((val / b) as nat, bn).push((val % b) as nat) + old_tail
                    =~= digits_of((val / b) as nat, bn) + tail);
            } else {
                assert(digits_of(val as nat, bn) == seq![val as nat]);
                assert(seq![val as nat] + old_tail =~= tail);
            }
            assert forall|j: int| 0 <= j < ds.len() + 1 implies tail[j] == ds@.push(d)[ds.len()
                - j] by {
                if j > 0 {
                    assert(tail[j] == old_tail[j - 1]);
                }
            }
        }
        ds.push(d);
        val = val / b;
    }
    digits_to_string(alphabet, &ds, Ghost(tail))
}

/// Encode a `BigNat` value to a string using the given alphabet.
pub fn encode_big(value: &BigNat, alphabet: &Alphabet) -> (r: String)
    requires
        alphabet.wf(),
    ensures
        r@ == encode_spec(value@, alphabet@),
{
    let base_usize = alphabet.base();
    let base = BigNat::from_u64(base_usize as u64);
    let ghost bn = base_usize as nat;
    proof {
        lemma_digits_of_bounded(value@, bn);
    }
    if value.lt(&base) {
        let idx = value.to_u64();
        let i = match idx {
            Some(i) => i as usize,
            None => 0,
        };
        let mut s = String::new();
        string_push(&mut s, alphabet.char_at(i));
        proof {
            assert(digits_of(value@, bn) == seq![value@]);
            assert(s@ =~= encode_spec(value@, alphabet@));
        }
        return s;
    }
    let mut ds: Vec<usize> = Vec::new();
    let mut val = value.clone();
    let ghost mut tail: Seq<nat> = Seq::empty();
    while !val.is_zero()
        invariant
            bn == base@,
            bn == alphabet@.len(),
            bn >= 2,
            base_usize == bn,
            val@ > 0 ==> digits_of(value@, bn) == digits_of(val@, bn) + tail,
            val@ == 0 ==> digits_of(value@, bn) == tail,
            tail.len() == ds.len(),
            forall|j: int| 0 <= j < ds.len() ==> tail[j] == ds@[ds.len() - 1 - j],
            forall|j: int| 0 <= j < tail.len() ==> #[trigger] tail[j] < bn,
        decreases val@,
    {
        let remainder = val.rem(&base);
        let next = val.div(&base);
        let d: usize = match remainder.to_u64() {
            Some(x) => x as usize,
            None => 0,
        };
        proof {
            assert(d == val@ % bn);
            if val@ < bn {
                vstd::arithmetic::div_mod::lemma_small_mod(val@, bn);
                vstd::arithmetic::div_mod::lemma_basic_div(val@ as int, bn as int);
            } else {
                vstd::arithmetic::div_mod::lemma_div_is_ordered(bn as int, val@ as int, bn as int);
                vstd::arithmetic::div_mod::lemma_div_by_self(bn as int);
            }
            let old_tail = tail;
            tail = seq![d as nat] + old_tail;
            if val@ >= bn {
                assert(digits_of(val@, bn) == digits_of(val@ / bn, bn).push(val@ % bn));
                assert(digits_of(val@ / bn, bn).push(val@ % bn) + old_tail =~= digits_of(
                    val@ / bn,
                    bn,
                ) + tail);
            } else {
                assert(digits_of(val@, bn) == seq![val@]);
                assert(seq![val@] + old_tail =~= tail);
            }
            assert forall|j: int| 0 <= j < ds.len() + 1 implies tail[j] == ds@.push(d)[ds.len()
                - j] by {
                if j > 0 {
                    assert(tail[j] == old_tail[j - 1]);
                }
            }
            vstd::arithmetic::div_mod::lemma_div_decreases(val@ as int, bn as int);
        }
        ds.push(d);
        val = next;
    }
    digits_to_string(alphabet, &ds, Ghost(tail))
}

} // verus!
