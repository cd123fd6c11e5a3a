# vfuzztrie

A fuzzy prefix search index over a character trie stored as flat arrays, with
per-node video statistics.

- `src/payload.rs`: per-node payloads; merging (per-video totals, ordered by
  decreasing total) and cutting to the top videos.
- `src/prefix/trie.rs`: the flat trie, its children ranges, and bottom-up
  propagation of payloads.
- `src/prefix/matcher.rs`: Levenshtein-bounded depth-first search over the
  trie, keeping one distance row per depth.
- `src/text.rs`: character and UUID text helpers.
- `src/lib.rs`: building the index from its arrays, with shape checks, and the
  key search that reports whether each key carries a payload.
- `app/lib.rs`: the Python extension module (argument conversion, byte
  serialisation of the index, and the floating-point video ranking).

Every function under `src/` is verified with Verus against its contract,
except one trusted wrapper, `text::push_char`, which calls `String::push` and
is assumed to append its character. The laws of the library (merge shape, propagation fixpoint, soundness and
completeness of the search, limits) are stated there as proof functions.
