# engram-parser

Checkpoint metadata parsing and Mixture-of-Experts extraction, verified with Verus.

- `src/` is the library. Every function has a contract, and Verus proves it. The contracts of
  three functions of the standard library are believed: `String::push`, `String::from_utf8`
  (behind `utf8_string`) and `char::from_u32`.
  - `gguf/`: cursor over a GGUF byte stream under resource budgets, metadata and tensor
    directory, tensor types, packed rows, layouts over mapped bytes.
  - `moe.rs`: listing and extracting the raw weights of experts.
  - `safetensors/`: JSON, shard headers, index files, metadata merging, tensor ownership,
    candidate discovery and deterministic manifests.
  - `text.rs`, `ordered.rs`, `sorting.rs`: strings, maps with string keys in order, stable
    sorting.
- `tests/` runs the library on files built in memory.
- `app/` reads, maps and writes files, and does the floating point arithmetic.

The library states its laws as public proof functions whose names start with `law_`: the
tensors of an accepted Safetensors header tile the data section, manifests are determined
by what the shards declare, JSON that the library writes reads back, budgets only ever
reject, every payload of a parsed GGUF file lies in its data section, and others.
