# scapegoat_tree

An ordered map from `u64` keys to values, kept as a scapegoat tree, written
in Verus with its contracts proved.

A new key is hung as a leaf. When its depth exceeds `log_{3/2}` of the
number of entries, the walk back up its search path stops at the lowest
scapegoat (a node whose child on the path holds more than two thirds of its
subtree) and rebuilds that subtree, flattened into a vine, into a tree of
least height by rotations. When removals take the count below two thirds of
the peak count, the whole tree is rebuilt.

The map's view is a `Map<u64, V>`; every operation is specified over it and
over the exact tree it leaves, whose nested form and sideways drawing are
what the map prints. Its well-formedness is a type invariant, so callers
carry no obligation: it includes the balance, no node lying deeper than
`log_{3/2}` of the peak count, which is itself at most three halves of the
count.

Nodes are boxes from the global allocator. A map made with `new_in` keeps
the allocator handle it is given (`allocator()` returns it) but never
allocates from it.

Layout:

- `src/map.rs`: `ScapeGoatTreeMap` and its operations, with the laws that
  need its internals.
- `src/node.rs`: nodes, the in-order entries of a tree, and the walks down
  one path (lookup, replace, remove, leftmost, rightmost).
- `src/path.rs`: the detached search path, the scapegoat search and the
  reassembly of the tree, with the balance argument.
- `src/vine.rs`: flattening a subtree into a vine and folding a vine into
  a tree of least height.
- `src/entries.rs`: key-sorted entry sequences and the maps they stand for.
- `src/bound.rs`: the exact integer test `(3/2)^d <= n`.
- `src/display.rs`: the tree's shape as tokens and lines for printing.
- `src/laws.rs`: laws that relate the operations through their contracts.
- `app/lib.rs`: `Display` for a map (values printed through their own
  `Display`) and collecting from an iterator.
