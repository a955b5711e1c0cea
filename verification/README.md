# whir_prover

The prover of WHIR, an interactive oracle proof of proximity for constrained Reed-Solomon codes,
written and verified in Verus.

A polynomial over the field of order `2^64 - 2^32 + 1` is committed to by a Merkle tree over its
codeword. `Prover::prove` then proves weighted sums of its values: round by round it folds
variables of the polynomial by a sumcheck over the quadratic extension field, commits to the
smaller polynomial, and opens the commitment before at random places; at the end it sends what is
left. The transcript decides all randomness: it is a trait, and the contracts say what is sent for
every sequence of challenges that it may answer, and what is left where it refuses a step.

- `field`, `domain`: arithmetic and the two-power subgroups.
- `poly`: multilinear polynomials by coefficients and by values.
- `dft`, `encoding`, `merkle`: codewords and commitments, over the Plonky3 crates.
- `fiat_shamir`: transcripts.
- `sumcheck`: the sumcheck for products of two multilinear polynomials.
- `whir`: parameters, statements, commitments, queries and the prover. `whir::prover::laws` states
  what holds of proofs as a whole.

`app/` adds proofs that can be stored, and entry points that test the preconditions.
