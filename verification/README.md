# rust_art

An adaptive radix tree (ART): an ordered map from byte strings to values, with
lookup, insertion, deletion, in-order iteration and inclusive range scans.
Inner nodes adapt their size (4, 16, 48 or 256 children) and compress
single-child paths into prefixes; a key that is a prefix of longer keys is
stored on the inner node where it ends.

Every operation is verified with Verus against a mathematical model: the map's
view is a `Map<Seq<u8>, V>`, and listings are sequences sorted in the same
lexicographic order as `&[u8]`. The map's invariant also keeps the tree
compressed (`compressed` in `src/model.rs`): every inner node holds at least two
of children and own entry, and a `Node16`, `Node48` or `Node256` holds more
children than the next smaller kind could. Insertion and deletion are proved to
keep it so. A child changed by a descent takes its old place in its parent, and
a deletion of an absent key leaves the map exactly as it was (deletion looks
the key up first and changes nothing when it is absent).

## Layout

- `src/lex.rs` – prefixes and lexicographic order on byte strings, and the
  comparisons the tree uses.
- `src/prefix.rs` – compressed path prefixes, inline when short.
- `src/raw.rs` – the node kinds and their per-kind operations.
- `src/model.rs` – what a subtree holds (entries, in-order items, size), its
  well-formedness and compression, and selection within bounds.
- `src/inner.rs` – operations on inner nodes of any kind: children, own entry,
  growing, shrinking and compaction after a removal.
- `src/map.rs` – `ARTMap`: `get`, `put`, `delete`, `items`, `range`, `iter`,
  `range_iter`.
- `src/iter.rs` – the stack-based in-order and range iterators.
- `src/laws.rs` – properties that relate several operations, such as a range
  scan being the full scan filtered to the bounds.
- `tests/` – executable tests.
