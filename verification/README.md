# pm_vault

The logic of a password-manager vault, written in Verus: records and their
encodings, signed human commands and how they are committed, the authority of
agents, authentication attempts, the audit log, imports, and backups.

- `src/` is the verified library. It takes plain values (stored rows, opened
  packages, digests, the time) and gives plain values back: bytes to hash, sign
  or store, and decisions. It performs no I/O and no cryptography.
- `tests/` runs the library on concrete values.
- `app/` is ordinary Rust around it: SQLite storage, streams, and a trait that
  names the cryptographic operations a vault needs.
- `extras/schema.sql` holds the tables of an empty vault.

CBOR is read and written with `minicbor`, and secrets are erased with `zeroize`;
both are called from `src/` through small wrappers whose contracts are stated in
`src/cbor.rs` and `src/wipe.rs`.
