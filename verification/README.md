# chainfold

A verified library for state that is folded from a chain of blocks, with the pieces such a service
stands on. Every item under `src/` is checked by Verus; `app/` holds the ordinary Rust around it.

## What is in it

| part | what it is | what is proved |
|---|---|---|
| `engine`, `batch`, `ring`, `checkpoint` | folds batches of blocks into a state, notices reorganisations, rolls back to checkpoints | what every batch does to the state, and which error each bad batch gets |
| `driver`, `source`, `sink`, `delay` | polls a source, finds the common ancestor after a reorganisation, offers snapshots | the questions asked of the source and what each answer leads to |
| `snapshot` | the checksummed encoding of an engine | decoding gives back what was encoded, which error each refused input gets, and that a snapshot with one byte changed is refused |
| `storage` | the directory that snapshots are committed to, and its flusher | the order of the file operations, and what a crash at any of them leaves |
| `harness` | what a running driver reports and waits for | each decision of the loop |
| `rotortree` | a level of a tree of hashes, in shared chunks | every operation over the sequence of hashes |
| `mayo` | the statement behind a proof of a MAYO signature: parameters, field, key expansion, commitments, the public map | the layout of the public input and the value of the map |
| `keystem` | spending and viewing keys, addresses, canonical field encodings | which bytes are accepted, and that encodings round-trip |

The laws that span several functions are the proof functions named `law_*`: in `engine_laws`,
`retention_laws` (what checkpoints keep over a run of batches), `driver_laws`, `chain_laws` (an
idle driver holds exactly the events of its source's current chain), `sink_laws`, `snapshot_laws`,
`storage::crash` and beside the types they speak of.

## What is trusted

Calls into outside crates stand in small functions marked `#[verifier::external_body]`; the doc
comment of each names the outside function and says what is claimed of it. The CRC32C checksum is
stated in full, in `checksum`. Hashes, ciphers and curve operations are given names (`aes128_of`,
`keccak256_of`, `shake256_of`, `poseidon_of`, `x25519_public_of`, `k256_public_of`,
`k256_point_of`), and the contracts speak of those.

The crash laws rest on a model of the disk, in `storage::crash`: unsynced contents may be lost,
name changes last once the directory is synced, and a slot that was torn by a crash shows its old
record, its new one, or fails its checksum. In a directory that never held a commit there is no
other slot to fall back on: a first slot that fails its checksum makes the manifest corrupt.

## Layout

- `src/` the verified library
- `tests/` its tests
- `app/` file system, threads, async loop, random draws, serialisation and the proof system
