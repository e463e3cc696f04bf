# hidden_watermark

A robust image watermarking library and command-line tool. The integer core
of the library is written in Verus and verified; the floating-point signal
processing, image I/O and the CLI are ordinary Rust under `app/`.

## Verified library (`src/`)

- `gf` — GF(2^7) with primitive polynomial x^7 + x + 1: exponent and
  logarithm tables, multiplication, inverses, and the field laws
  (commutativity, associativity, distributivity, inverses).
- `bch` — the BCH(127, 64) code of designed distance 21: generator
  polynomial from minimal polynomials, systematic encoder, syndrome decoder
  that corrects every pattern of up to ten errors per 127-bit chunk
  (exhaustive search for up to three errors, Peterson–Gorenstein–Zierler with
  Chien search beyond).
- `pgz` — why the Peterson–Gorenstein–Zierler step succeeds: for e errors
  the e×e Hankel system of syndromes is nonsingular (Vandermonde), the error
  locator solves it, and its reversal vanishes exactly at the error positions.
- `gf_linear` — square linear systems over GF(2^7): dot products, solutions,
  and the row operations of Gauss–Jordan elimination, which keep them.
- `poly_eval`, `generator_tables`, `generator_facts` — evaluation of
  polynomials at powers of α, and the proof that the generator is monic of
  degree 63, binary, with constant term 1, and vanishes at α^1..α^20.
- `bch_laws`, `bch_distance` — every encoded chunk is a codeword, decoding an
  encoding gives back the data, and up to ten bit errors per chunk are
  corrected.
- `codewords` — every word with zero syndromes is the encoding of its own
  data bits, so re-encoding what the decoder returns gives a codeword at most
  ten bits from the received word; and no nonzero binary polynomial of degree
  below 63 vanishes at α^1..α^20, so the generator has least degree.
- `frame` — the `HWM2` payload frame with its CRC-32, its bit serialisation,
  reading frames back from decoded bits, and majority voting over copies.
- `midfreq` — zigzag scan order, mid-band coefficient selection, the
  key-derived ±1 sequence and its cross-shaped combination.
- `common`, `backend` — tile geometry, capacities and key-derived block plans.
- `primitives` — the calls into `crc32fast`, `sha2`, `rand` and
  `rand_chacha`, each behind a trusted contract.

## Application (`app/`)

The CLI (`embed`, `detect`, `detect-batch`), DCT/IDCT in floating point,
ORB/RANSAC alignment with `imageproc`, detection statistics, and the tile
backends' signal processing. Each calls the verified library for its integer
work.

## Tests (`tests/`)

Unit tests of the code, frame, sequence, zigzag and geometry functions on
concrete values.
