# lrdas_artifact

A verified library for locally recoverable data-availability sampling (LRDAS): the
code parameters and their validation, Tamo–Barg style local/global encoding over the
BLS12-381 scalar field, KZG commitments and openings, group certification and
recovery, the collector policy of the availability experiments, the linear-algebra
decoder of the separation tables, and an independent checker of the encoding over
small prime fields.

The library is written in Verus. Every function in `src/` carries a contract that
Verus proves; calls into the outside crates (arkworks, `rand`, `rand_chacha`, `sha2`)
stand behind small trusted wrappers whose contracts state what those crates document.

Layout:

- `src/` — the verified library, one module per concern (`domain`, `field`,
  `polynomial`, `fast_polynomial`, `product_tree`, `kzg`, `protocol`, `recovery`, `variants`,
  `separation`, `collector`, `decoder`, `specification`, `encoding_laws`, `fixture`,
  `paper_checks`).
- `tests/` — the test suite, run against the compiled library.
- `app/` — the command-line program: argument handling, file output, timing
  benchmarks and floating-point statistics.

Among the laws proved in `src/`: interpolation reproduces its values, the encoding of a
message decodes back to it (over the BLS12-381 field and, in `encoding_laws`, over every
small prime field of the checker), the unconverted encoding round-trips exactly when
equation 16 holds, and the collector reaches its recovery target exactly when enough
groups are recoverable; a remainder modulo `X^m - gamma` agrees with its polynomial on
the coset of `gamma`, and a subproduct tree evaluates a polynomial exactly at its points.
