# grid_algebra

Verified algebra for lattice cryptography: modular integer rings, prime fields in
Montgomery form, residue number systems, fixed-width big integers, the Number
Theoretic Transform and polynomial rings `Z_q[X] / (X^n + 1)`, written in Verus.
The code in `src/` is checked by Verus against the contracts written beside it;
the public operations state what they return, and the laws that tie operations
together (transform round trips, the convolution theorem, Chinese remaindering,
gadget round trips, ring axioms) are stated as proof functions.

## Layout

- `src/arith/` — integer rings and their laws: `bigint` (fixed-limb unsigned
  integers), `zm`, `z2k`, `gf2`, `prime` and `montgomery` (prime fields in
  Montgomery form), `primality`, `prime_ntt` (roots of unity of prime fields),
  `rns` and `composite` (residue number systems and the Chinese remainder
  theorem), `large_modulus` (rings whose canonical values exceed 64 bits),
  `large_zm` (fixed-limb rings `Z/MZ` with Barrett reduction and their byte
  encoding), `large_rns` (rings modulo products of 64-bit moduli held as
  residues, with Chinese remaindering and Garner reconstruction), `large_prime`
  (fixed-limb prime fields on the Barrett ring, with the binary extended
  Euclidean inverse), `ntt` (plans, transforms, the round-trip laws, over any ring
  with the needed roots of unity), `large_ntt` (roots of unity of the large prime
  fields and of the large residue rings) and `dft` (the transform as a discrete
  Fourier transform, and the convolution theorem).
- `src/poly/` — the twisted (negacyclic) NTT, polynomials held in the twisted
  evaluation domain (a ring slot by slot), cyclotomic polynomial rings, automorphisms `X -> X^k`, and
  gadget decomposition for 64-bit and for large moduli.
- `src/lattice/` — vectors and matrices over rings, norm bounds (word-sized, and
  exact wide norms for large moduli, with the soundness of composed bounds),
  sampling from supplied draws, and the SIS, LWE and RLWE verifiers.
- `src/serialize.rs` — canonical byte encodings and their round trips.
- `app/` — what stays outside verification: process-wide plan caches, the random
  source, and a floating-point Gaussian sampler.
- `tests/` — executable tests of the library.
