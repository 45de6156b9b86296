# arena_tree

A DOM-like tree whose nodes live in an arena. Every node knows its parent,
its previous and next sibling and its first and last child; a `Node` is a
handle that names a node of an `Arena`.

The library is written in Verus and proved against its contracts:

- `src/model.rs`: the abstract state of an arena (`ArenaView`): data,
  parents, children, sibling lists and ancestor lists of all nodes, what
  makes it a valid forest, and the editing operations on it (`detached`,
  `appended`, `prepended`, `inserted_after`, `inserted_before`).
- `src/arena.rs`: the arena, node creation, the link getters, data access
  and the editing operations, each proved to keep the arena well formed and
  to perform the abstract operation. The state of an arena is the one its
  stored links describe; `Arena::is_tree` tells whether they form a forest,
  which the walks and the editing operations need.
- `src/axis.rs`, `src/traverse.rs`: the walks (ancestors, siblings,
  children, tree-order traversal with start and end edges, descendants).
- `src/debug.rs`: the text of a subtree for debugging.
- `src/wire.rs`, `src/forest.rs`, `src/roundtrip.rs`: the flat form of a tree
  used for serialization, which is read back with its links as written; the
  test that links form a forest; and the proof that reading back what was
  written gives the same tree.
- `src/laws.rs`: properties relating the operations.

`app/` holds the serde glue (for any serde format, with JSON helpers) and the `Debug` text of node data.
