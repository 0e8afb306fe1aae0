# geektime_rust

Small Rust exercises — string tokenising, Fibonacci numbers, event
encoding, a key-value store, a proof-of-work search, a grep tool and a
proc-macro that turns a JSON-schema-like description into a struct —
written as a Verus library whose functions carry proved contracts.

- `src/` is the verified library. Each module states what its functions
  return over mathematical models (`Seq`, `Map`, spec functions), and the
  laws that relate several functions are proof functions (`law_*`).
  Calls into other crates (regex, blake3, rayon, dashmap, html2md, tokio, prost, sled)
  go through small trusted wrappers whose doc comments say what is assumed.
- `app/` holds what Verus does not see: program entry points, file, network
  and terminal I/O, async plumbing, the proc-macro token conversion, and the
  copies of library types that carry serde, prost, clap and thiserror derives.
- `tests/` exercises the library on concrete inputs.
