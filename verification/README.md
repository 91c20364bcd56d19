# hachi

One round of the Hachi lattice-based multilinear polynomial commitment scheme, written in Verus
and verified: setup, commit, the evaluation proof and its verifier over the ring
`R_q = Z_q[X]/(X^d + 1)`, `q = 2^32 - 99`, `d = 2^10`, with the two sumchecks over `F_{q^4}`.

## Layout

- `src/arithmetic`: the fields `F_q`, `F_{q^2}`, `F_{q^4}`; polynomial vectors and matrices and
  their NTT forms; the ring products; sparse challenges; gadget decomposition; the Fiat-Shamir
  transcript; the ChaCha12 generator; the sumcheck round message and table folding.
- `src/hachi`: parameters (`setup`), the commitment (`commit`), the prover (`prove` and
  `prover_utils`), the verifier (`verify`), the table of `M_alpha` (`common`), the value of the
  committed polynomial at a point (`evaluate`) and the completeness of the reduction of an
  evaluation claim to `R_q` (`reduction`).
- `src/stream`: sequential, rewindable access to the witness, in memory or in the bytes of a file.
- `app`: the command line, which maps the witness file, runs commit, prove and verify and prints
  timings.
- `tests`: tests on concrete values, among them a full round that the verifier accepts.

Every function in `src` carries its contract and is proved by Verus. The outside crates are called
through a few small functions whose contracts are assumed rather than proved, each with a doc
comment saying what is assumed: `tfhe-ntt` for the NTT, `rand_chacha` for the generator, `sha256`
and `base64` for the transcript seed.
