# mazecode

A generator of QR-style two-dimensional codes, at error correction level H
with mask pattern 001, written in Verus: the library's behaviour is stated
in `requires` / `ensures` contracts and proved.

## Layout

- `src/gf.rs`: arithmetic in GF(256) (x^8 + x^4 + x^3 + x^2 + 1), polynomial
  remainders and the generator polynomials of Reed–Solomon codes.
- `src/field_laws.rs`, `src/poly_laws.rs`: the field laws (commutativity,
  associativity, distributivity, inverses, the order 255 of every nonzero
  element) and the laws of division by a generator polynomial (long division
  with quotient and remainder, additivity of the remainder, a codeword has
  remainder zero, the generator vanishes at consecutive powers of two).
- `src/versions.rs`: the 40 versions, their capacities, block structure,
  alignment pattern coordinates and version groups.
- `src/version_info.rs`: the generation of those tables from the version
  information.
- `src/bits.rs`: the module grid and the bit stream, held in `bitvec` bit
  vectors behind trusted wrappers.
- `src/encode.rs`: byte mode encoding of the input and choice of version.
- `src/message.rs`: division into blocks, error correction codewords and
  interleaving.
- `src/layout.rs`: which modules hold data and the order in which they fill.
- `src/capacity.rs`: the number of data modules of each version, and that
  every bit of the message finds one.
- `src/grid.rs`: drawing of the function patterns, the data and the format
  information, with what the drawn symbol holds: the finder patterns and
  their separators, the timing patterns, the dark module, the format bits
  and every data bit in its place.
- `src/score.rs`: the score of a symbol and the hill climbing over the padding.
- `app/main.rs`: the command line program: encodes a sample text, pads it
  with random bytes, improves the padding and writes PNG images.
- `tests/`: tests of the library.
