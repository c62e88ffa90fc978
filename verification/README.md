# gltf_json

The mesh part of a glTF 2.0 document model: rendering modes, attribute
semantics, morph targets and primitive validation, each with its contract.

- `src/mode.rs`: primitive rendering modes and their `GLenum` numbers.
- `src/semantic.rs`: vertex attribute semantic names, read from and written
  as text, and the keys by which a primitive orders its attributes.
- `src/morph.rs`: morph targets, read from and written as dictionary entries.
- `src/mesh.rs`: mesh primitives and their validation.
- `src/decimal.rs`, `src/listing.rs`: decimal text of `u32` values and
  ordered listings of maps, with their lemmas.
- `src/json.rs`: the single call into `serde_json`.
- `app/`: the serde-capable types that read and write the JSON.
