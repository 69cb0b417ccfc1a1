# wallet

The decision-making core of a Cashu-style ecash wallet, verified with Verus.

- `src/` is the verified library:
  - `types`: the wallet's records as plain values (keyset ids, curve points,
    proofs, blinded messages, stored proof rows, the node's wire messages).
  - `convert`: proofs and blinded messages into the node's wire form.
  - `select`: the greedy choice of stored proofs that pay an amount, the
    choice of the proof to split when they fall short, and the choice among the
    tokens a split returns; the laws of the selection.
  - `receive`: the checks a received wad must pass and the batch of pending
    proofs it becomes.
  - `wad`: grouping proofs into a compact wad (runs of proofs that share a
    keyset), through `itertools`.
  - `keyset`: what the wallet records of a keyset the node describes.
  - `swap`, `store`: the inputs of a split, the state of the split proof after
    the node answers, the pairing of pre-mints with signatures, and the records
    stored for new tokens.
  - `tls`: the acceptance rule for the node's certificate.
- `app/` holds the storage (SQLite), node (gRPC) and TLS plumbing, which reads,
  sends and lets the library decide.
- `tests/` runs the library on concrete values.
