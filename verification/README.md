# wgenty_memory

The memory core of a coding agent, written in Verus: how memories are
tokenized (a dictionary-free tokenizer with CJK two-character grams, and
jieba segmentation), compared over those tokens and related to each other, how a new memory enters a
pool (insert, merge, supersede, or ask a judge), retention and the
consolidation pre-pass, recall keywords and the injected context block, the
session index, command history, legacy session migration, the consolidation
lock, and the predicates behind the daemon's endpoints, including the framing of a relayed event stream.

Layout:

- `src/` — the verified library. Every verified public function states its
  result in `ensures` over spec functions; laws that span several functions are public
  `proof fn`s named `law_*`. Calls into `std`, `regex`, `uuid`, `chrono`, `serde_json` and `jieba-rs`
  go through a few `#[verifier::external_body]` wrappers whose doc comments
  say what is trusted.
- `app/` — plain Rust around the library: file and network I/O, async
  managers, serde copies of the library's types, and the floating-point
  ranking (effective importance, TF-IDF).
- `tests/` — tests on concrete values, one per behaviour.

Verify with Verus on `src/lib.rs`; build and test with cargo.
