# bigint_rs

Arbitrary precision signed integers held as base-10^9 digits, with every
operation verified by Verus against a mathematical statement of what it
computes.

- `bigint` — the `BigInt` type, its well-formedness invariant and its view as a
  mathematical integer; parsing, printing, comparison, schoolbook
  multiplication and long division.
- `arithmetic` — addition, subtraction, multiplication.
- `karatsuba` — Karatsuba multiplication on digit vectors.
- `modular` — modular addition, multiplication, exponentiation and inverse.
- `primality` — Euclid's gcd and the Miller-Rabin test.
- `number_theory` — Euclid's lemma, Fermat's little theorem and the square roots
  of one modulo a prime, from which Miller-Rabin is shown never to reject a prime.
- `digits`, `text` — the values of digit sequences and the textual forms of
  integers that the contracts speak of.
