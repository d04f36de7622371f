# enroute_git

A git engine's write path, verified: reading a pack off the wire, planning what
each commit's pack stores, staging and laying out pack images, and recording
what a push brought. What each function returns is stated in its contract and
proved by Verus.

## Layout

- `src/packfile` reads and writes packs: variable-length numbers, entry headers,
  a reader that takes its bytes as they arrive, and deltas both ways.
- `src/objects` is the object index: where each tree and blob is stored, as
  sorted segments that join, with the bytes they are kept in.
- `src/metadata` is a repository's rows: numbers, refs, segments, in memory.
- `src/journal` lands what a push writes, all of it or none.
- `src/ingest` takes a push from its pack to what is recorded of it. It decides;
  what it needs to know of a store it takes as an argument.
- `src/ordmap` and `src/seqs` are the maps and sets that the rest is written
  with.
- `src/deps` holds what is believed of other crates: `roaring`, `lru`, `sha1`,
  `gix-pack`, `gix-hash`, `bytes`, `libdeflater`, `flate2` and `rand`. Each item
  names the function it calls and says what it claims of it.
- `tests` runs the library from outside.
- `app` is ordinary Rust around it: stores, tasks and streams.

## Laws

What holds of more than one call stands in `src` as a public proof function
beside the functions it is about: that a delta applied to its base gives the
target back, that joining indexes is idempotent, commutative and associative,
that a refused update changes nothing, that chains run backwards, and the like.
