# notcraft

The game logic of a voxel sandbox, written in Verus: the data structures,
algorithms and rules carry `requires`/`ensures` contracts that Verus proves.

## Layout

- `src/` is the verified library.
  - `world/` holds chunk sections and their storage (`chunk.rs`), the block
    registry, chunk access with queued writes (`chunk_access.rs`,
    `access.rs`), applying queued writes and recording what changed
    (`chunk_update.rs`), sky light columns (`lighting.rs`), light spreading
    (`propagation.rs`), world generation, the chunk loader and persistence.
  - `mesher/` turns a section and its neighbors into a terrain mesh, one
    face at a time or merging equal faces, and tracks which chunks have
    enough loaded neighbors to be meshed (`tracker.rs`).
  - `codec/` writes the tree-shaped binary format that chunks are saved in.
  - `audio.rs`, `player.rs`, `debug.rs` and the smaller modules hold the
    rules of sound selection, terrain manipulation, debug event switches and
    the like.
  - `vecmap.rs` holds the small ordered set and maps that the library keys by
    plain values, and `random.rs` the calls into `rand`.
- `tests/` exercises the library from outside.
- `app/` is the program around it: argument handling, reading the block
  registry and sound manifests from disk, and the copies of library types
  that carry `serde` derives.

What takes floating point (physics, camera and audio sampling), a GPU or a
window stays outside the library.
