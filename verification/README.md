# compactor

A codec for block-based sorted-table files (`.sst`) and offline compaction of
them, verified with Verus.

## Layout

- `src/format/`: the file format. Varints, internal keys, checksums,
  decompression, data and index blocks, properties and metaindex blocks, the
  footer, and whole tables.
- `src/sst.rs`: reading tables, from memory or part by part.
- `src/merge/`: merging sorted inputs with a heap or with a loser tree, over any
  order of keys.
- `src/compaction/`: strategies that decide what is kept, compaction, and
  compaction in shards.
- `src/round_trip.rs`: what reading gives back of what was written.
- `src/oracle.rs`, `src/fuzzer.rs`, `src/generate.rs`: compaction done the plain
  way, a comparison of the two ways, and inputs for it.
- `app/`: the two command line tools and what does input and output.

## What is proved

Every function states what it returns, and on which inputs it fails with which
error. Among the laws that hold of the library as a whole:

- A table that is read gives back the entries it was written from, whatever the
  checksum; so does every block and the footer.
- A search by the index of a table ends at the block that holds the key.
- A merge neither drops, adds nor changes an entry, and comes out sorted. Both
  mergers meet the same contract; of the loser tree it is also stated which of
  two equal keys goes first.
- Readers of the newest versions see the same before and after a compaction, and
  with the strategy for a snapshot so do readers of that snapshot.
- Compacting in shards gives what compacting at once gives, and no user key is in
  two shards.
- Compaction by merging and compaction the plain way agree.

## What is trusted

The checksum functions of `crc32c` and `xxhash-rust` and the decoders of `snap`,
`lz4_flex` and `zstd` are called as they are. Of each it is only taken for
granted that its result is determined by its arguments: for the last two the
stored bytes and the size of the buffer. The items that say so are in
`src/format/checksum.rs` and `src/format/codec.rs`.
