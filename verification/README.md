# bedrockrs_level

A verified library for the level data of Minecraft Bedrock worlds: sub chunks of
16 × 16 × 16 blocks, their palette form, the byte format in which the level
database stores them, and the planning behind whole-level operations (which keys
a chunk deletion removes, which part of each sub chunk a fill sets, which chunks
exist).

- `src/` is the library, written in Verus. Every function carries a contract over
  a mathematical model (`SubChunkView`, `LevelBlockView`, `TransitionValue`, …)
  and is proved against it. The laws of the library are public proof functions:
  encoding a sub chunk for disk and decoding the bytes gives it back (for palette
  entries that the NBT reader reads exactly; the network encoding shifts the
  palette type by two and does not decode back), reading a position gives what
  was set there, also across writing the sub chunk and reading it back, and a
  fill sets exactly the blocks of its box.
- `app/` is the level itself: the database trait, the serde forms of blocks and
  the loops that read, decide through the library, and write.
- `tests/` runs the library on concrete values.
