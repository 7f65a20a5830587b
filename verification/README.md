# ml_dsa

Key generation for ML-DSA-44 and the arithmetic under it, written in Verus.

- `src/params.rs`: the parameter set and the sizes of keys.
- `src/ntt.rs`: reduction modulo q, the number-theoretic transform and its inverse, and the
  coefficient-wise operations; the transform is shown to be evaluation at the 256 roots of
  X^256 + 1 and to be undone by its inverse.
- `src/negacyclic.rs`: multiplication in Z_q[X]/(X^256 + 1), and the proof that the transform
  turns it into a coefficient-wise product.
- `src/zetas.rs`: the twiddle factor table as powers of ZETA, and the NTT as evaluation at the
  odd powers of ZETA.
- `src/bits.rs`: byte strings read as little-endian integers, the model of every bit packing.
- `src/keypair.rs`: rejection sampling, bit packing of keys and key generation, specified
  over the SHAKE output streams.
- `src/sign.rs`: decoding of private keys, and the round trips between packing and unpacking.
- `src/xof.rs`: the calls into `sha3` and `getrandom`, the only code whose contracts are trusted.
- `app/main.rs`: generates a key pair and decodes its private key.
