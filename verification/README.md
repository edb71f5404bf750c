# obfuskey

Packs several integer fields into one number and obfuscates numbers into
short fixed-length keys over an alphabet, and back. The library is written in
Verus: every function in `src/` carries a contract that Verus proves.

## Layout

- `src/alphabet.rs`, `src/alphabets.rs`: alphabets of key characters and the
  predefined ones.
- `src/numeral.rs`, `src/encode.rs`, `src/decode.rs`: positional numerals and
  their meaning; decoding an encoded number gives it back.
- `src/bignat.rs`: arbitrary-precision naturals on top of `num-bigint`, whose
  operations are the trusted calls of the library.
- `src/primes.rs`, `src/math.rs`: primality, the next prime of the search,
  modular inverses and the generated prime multiplier.
- `src/fermat.rs`: the binomial theorem and Fermat's little theorem, from
  which every prime passes the prime test.
- `src/obfuskey.rs`: keys for values and values for keys; a value always reads
  back from its key when the multiplier is coprime to the modulus.
- `src/obfusbit_schema.rs`, `src/packing.rs`, `src/obfusbit.rs`: schemas of
  bit fields, the arithmetic of packing, and packing values into numbers,
  bytes and keys; unpacking what was packed gives the values back.
- `app/`: the edges that Verus does not check: `BigUint` and `HashMap`
  values, floating-point multiplier factors, and the `Error` and `Display`
  impls.

Fixed-point multiplier factors use the scale `10^18`: the default factor, the
golden ratio, is `1618033988749894912`.
