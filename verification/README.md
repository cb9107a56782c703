# mini_egraph

Small e-graphs written in Verus: a union-find over e-classes, hash-consed
nodes, congruence rebuilding, e-matching and rewriting, with their behaviour
stated in contracts and proved.

## Layout

- `src/util/` — shared pieces: class ids, the union-find with class rings
  (`unionfind`), substitutions kept as a small vector of bindings (`subst`)
  or in a hash map (`keyed`), interned symbols (`symbol`, made only by
  interning, so every symbol's text can be looked up), and s-expressions
  with a verified reader (`sexp`).
- `src/egraph.rs` — an e-graph whose node table is also its union-find: each
  entry holds its parent's id, and nodes are named by plain text.
  Rebuilding is proved to terminate, to add
  nothing but canonical forms of the nodes it had, and to leave the least
  congruence that contains the classes it started from; e-matching returns
  exactly the matches its specification lists.
- `src/simple/` — an e-graph in the style of egg's `SymbolLang`: a node
  table, a union-find, and a class map filled by `rebuild`, which is proved
  to leave exactly the old entries canonicalized and the least congruence
  above the old classes. `rewrite.rs`
  holds e-matching (with a soundness lemma), instantiation, rewriting and
  rewriting to a fixed point.
- `src/acyclic.rs` — an e-graph of curried binary expressions where a union
  is itself a node.
- `app/` — printing and reading the environment, which the library leaves
  out.
- `tests/` — tests of each part.

Outside crates: `indexmap` (node tables, class maps, substitutions),
`rustc-hash` (the hasher of the `FxIndexMap` tables), `smallvec` (binding
lists) and `symbol_table` (the global symbol interner). Each call goes through
a small trusted function whose contract says what the crate's documentation
promises.
