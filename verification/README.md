# mysticeti

A Mysticeti DAG consensus node whose protocol logic is verified with Verus.

`src/` is the verified library:

- `types`, `encoding`, `data`: blocks, references, statements, and the canonical
  block encoding that digests and signatures cover.
- `crypto`: block digests (BLAKE3) and Ed25519 signing and verification.
- `committee`, `config`: validator set, stake, leader election, genesis blocks,
  parameters and the built-in four-validator committee.
- `block_store`, `block_validator`, `block_manager`: the DAG store (one block per
  reference), block admission rules, and what a new block includes.
- `base_committer`, `universal_committer`, `linearizer`, `commit_observer`: the
  wave-based commit rule (direct, or indirect through a later committed
  anchor) and the causal ordering of committed blocks.
- `core_loop`: the core state machine (ingest, propose, commit).
- `codec`, `peer_identity`, `sync`, `message`: wire framing, endpoint-to-authority
  mapping, block-request answers, and the message vocabulary.
- `client`: the submitting client's connection pool and target choice.

`app/` holds the parts that do I/O: the node binary (CLI, Iroh endpoint, protocol
handler, timers), serde copies of the protocol types for bincode, and the
transaction-submitting client (`mysticeti client`).
