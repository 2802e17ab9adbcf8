# workload_model

The shared model beneath a block-reference workload tool suite: the key
derivation that turns a workload into a block reference stream, the
deterministic randomness every draw derives from, the fixed-width plan record
and the writer that enforces what the plan format promises its readers, and
the integer side of fitting a workload to a trace (the segment census, root
popularity).

## Layout

- `src/` — the library, written in Verus. Every function carries a contract
  and is proved against it; the properties that span functions are stated as
  `law_*` proof functions next to the code they are about.
  - `rng` — SplitMix64 streams keyed on a seed and a label, as a closed form.
  - `keys` — root, trunk and private key derivation over BLAKE3.
  - `hashing` — the BLAKE3 calls and hex rendering of digests.
  - `plan` — the record codec, reader, writer, digests, manifest identity,
    run budget, and the assembly of one request's events.
  - `corpus` — path lifetime under churn, split state of a trunk walk, band
    lookup.
  - `fit` — the segment census of a trace's prefix trie, root popularity,
    weighted buckets, and the refusals a fit can make.
  - `schema` — the document's plain enumerations, the unit path table,
    `extends` chain following and the merge beneath it, validation
    findings, and the document's structural rules over its plain facts.
  - `text` — decimal and hex rendering for messages.
- `app/` — ordinary Rust around the library: floating-point distributions and
  profiles, the serde form of the manifest, plan files on disk, and the
  conversion between YAML values and the library's merge tree.
- `tests/` — the library's tests.
