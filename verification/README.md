# fork-tree

A tree of blocks on competing forks, for programs that finalize one fork after
the other. Nodes are imported, searched, finalized in order and pruned; whether
one block descends from another is asked of the caller. Everything in `src/` is
verified with Verus.

- `src/tree.rs`, `src/node.rs`: `ForkTree` and `Node`.
- `src/iteration.rs`: iterating over nodes, and over nodes that were removed.
- `src/encoding.rs`: the bytes that a tree is stored as.
- `src/error.rs`: what operations report.
- `src/model.rs`: the mathematical picture that all contracts speak of.
- `src/search.rs`, `src/placement.rs`, `src/balance.rs`, `src/finalization.rs`,
  `src/contents.rs`, `src/trail.rs`: what the operations do, in terms of that
  picture.
- `src/laws/`: what holds of the tree as a whole.
- `app/`: the tree as a value of the codec, and its error as a standard error.

Two things are taken on trust: how `parity-scale-codec` writes and reads a count
in compact form (`write_compact` and `read_compact` in `src/encoding.rs`).

An operation that takes `is_descendent_of` or a predicate states what it does for
any function that answers the same question always in the same way, and beside
that what holds whatever is answered.
