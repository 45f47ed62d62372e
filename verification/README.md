# solvec_core

The core of a vector store with verifiable provenance: an HNSW index for
nearest-neighbour search, AES-256-GCM encryption of vector batches, and a
SHA-256 Merkle tree over vector ids whose root is posted on chain by a small
on-chain program.

## Layout

- `src/` — the library, verified with Verus.
  - `merkle.rs`: the Merkle tree, proofs and their checking, with the laws
    that a member's proof reaches the root and that distinct id lists of one
    length have distinct roots unless SHA-256 collides.
  - `digest.rs`: SHA-256 (`sha2`) and hex encoding and decoding (`hex`).
  - `encryption.rs`: the payload format `nonce ++ AES-256-GCM(le64(n) ++
    le64(d) ++ components)` and key derivation from a wallet key.
  - `hnsw.rs`: the layered graph of the index and its invariant; adding,
    linking and removing nodes.
  - `search.rs`: beam search over a layer, greedy descent, queries and the
    insertion of a node; similarity comes from the caller as integer keys.
  - `ranking.rs`, `adjacency.rs`, `idset.rs`: ranking of neighbour lists and
    the `ahash` maps and sets the graph is kept in.
  - `program.rs`: the rules of the on-chain collection registry (creation,
    root updates, access grants, freezing).
  - `types.rs`, `inspector.rs`: shared types and records.
- `app/` — the runtime around the library: float vectors and similarity
  scores, JSON persistence, random levels and the WebAssembly-facing API.
- `tests/` — scenarios run against the compiled library.
