# hsmtool (elementary-file wrapping)

RFC 5649 AES Key Wrap with Padding, verified with Verus, and the
elementary-file export/import pieces built on it.

- `src/kwp_spec.rs`: the mathematical model of wrap and unwrap (register `A`,
  semiblocks `R`, steps with their counters, integrity checks).
- `src/kwp.rs`: `kwp_wrap`, `kwp_unwrap` and `kwp_check_integrity` over a
  caller-supplied block function, with contracts over that model.
- `src/kwp_laws.rs`: unwrap undoes wrap under an inverse block function, an
  accepted ciphertext is the wrap of what it unwraps to; the
  wrapped length.
- `src/envelope.rs`: the envelope with Base64 contents (calls `base64ct`).
- `src/session.rs`: wrap and unwrap on a PKCS#11 token (calls `cryptoki`).
- `src/ef.rs`: export/import settings and their decisions.
- `app/`: serde and clap forms of the types, JSON, and token object plumbing.
