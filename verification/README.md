# comtains

Membership checks for small, static sets of byte sequences. The sequences are
laid out as a trie that shares common prefixes; each edge records how many
sequences pass through it, and sibling edges are ordered by descending weight
(then ascending byte) so that common paths are probed first. A lookup walks the
trie and stops at the first byte without an edge.

```rust
use comtains::{build_trie, ByteSet};

let methods: [&[u8]; 4] = [b"GET", b"POST", b"PUT", b"PATCH"];
let trie = Box::leak(Box::new(build_trie::<4, 16, 15>(&methods)));
let set = ByteSet::from_trie(trie);
assert!(set.contains(b"GET"));
assert!(!set.contains(b"DELETE"));
```

`len` is the number of distinct sequences; a sequence given twice counts once
(edge weights count every occurrence).

A trie of sequences with `T` bytes in total never needs more than `T + 1` nodes
and `T` edges (`model::lemma_distinct_prefix_count_bound`), so
`total_bytes(&seqs) + 1` and `total_bytes(&seqs)` are always enough capacity.

## Layout

- `src/model.rs`: the mathematical model: prefixes of a list of sequences, how
  many sequences share a prefix, prefix order of first occurrence.
- `src/internal.rs`: `Node`, `Edge`, `Trie`, the trie specification
  `trie_shape`, `total_bytes`, `build_trie`, and the proof that a trie of given
  sequences is unique.
- `src/builder.rs`: the working state of `build_trie` (child lists kept as
  linked lists of edge indexes, then sorted per node).
- `src/byte_set.rs`: `ByteSet` and its lookup.
- `src/expand.rs`: what the `byte_set!` procedural macro decides: the bytes a
  sequence expression denotes, removal of repeated sequences, the macro's trie,
  its flat tables, and the decision tree of the generated `contains`.
- `app/lib.rs`: the token side of the macro (`syn` in, `quote` out).
- `tests/`: tests of the library.

Every function in `src/` is verified with Verus against its contract; the
library holds no trusted items.
