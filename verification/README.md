# poke

The integer core of the POKÉ and INKE public-key encryption schemes from
higher-dimensional isogenies, verified with Verus.

- `src/` is the verified library:
  - `limbs`: little-endian word and byte strings, their value, and exact or
    wrapping addition, subtraction and multiplication on them;
  - `bn`: fixed-size big numbers (`BigNum<N>`) and arbitrary-size ones
    (`BigNumArb`), with conversions, arithmetic, comparison and divisibility;
  - `modular`: reduction, multiplication and inversion modulo a number,
    reduction modulo a power of two, and Chinese remaindering for two and three
    moduli;
  - `rand`: rejection sampling of elements, units, secret degrees and invertible
    matrices;
  - `integer`: signed integers of any size with truncating division;
  - `endomorphism`: Gaussian-integer powers, square roots modulo a prime,
    Cornacchia's algorithm and the search for a quaternion of given norm;
  - `utilities`: modular inversion;
  - `keystream`: the one-time pad of the schemes, a message XOR-ed with the
    SHAKE256 output for the shared secret;
  - `supplement`: products over ranges and the proof that 2 is not a square
    modulo a prime that is 5 modulo 8.
  Arithmetic on arbitrary-size magnitudes, modular inversion, SHAKE256 and the
  random words come from `num-bigint`, `sha3` and `rand`, behind functions whose
  contracts state what those crates document.
- `app/` holds the schemes themselves (key generation, encryption, decryption,
  two-dimensional isogeny chains, discrete logarithms, parameter sets), which
  work on curve points and field elements through the `fp2` and `isogeny`
  crates and are not verified.
- `tests/` runs the library on concrete values.
