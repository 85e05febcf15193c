# diffame

A structural diff: both inputs are parsed with tree-sitter, the syntax trees
are matched with SimpleGumTree (a top-down pass that anchors identical
subtrees, then a bottom-up pass that recovers containers by Dice
similarity), and a Chawathe-style generator turns the matching into an edit
script of inserts, deletes, updates and moves. Inputs without a grammar are
diffed line by line with the same action vocabulary.

The library under `src/` is written in Verus; every function in it is
verified against its `requires`/`ensures` contract. Among the properties the
contracts and proof functions state:

- the mapping between the two trees is always a bijection, and the edit
  script is exactly the one the generator's specification describes, with
  every action justified by the mapping; every unmapped node is inserted
  (or deleted) by exactly one action, the destination root is never
  inserted, and all deletes come last;
- the top-down pass only links nodes that sit at the same place below a pair
  of anchors of equal kind, hash and height, and a tree matched against a
  tree of the same shape (taller than the minimum height) is linked node
  for node; with a hash free of collisions on the two trees, every pair it
  links has equal kind and hash; and every pair of isomorphic subtrees
  taller than the minimum height that has no rival on either side, and
  nothing isomorphic above it, is linked (by the whole matcher too);
- the bottom-up pass links a node only to a node of its kind, only around
  anchors; every container it picks reaches the Dice threshold and is at
  least as similar as any candidate left free, and a walked node stays
  unlinked only when no free node of its kind reaches the threshold; its
  recovery links exactly the leaves that are alone with their kind and
  label on both sides, and leaves a node unlinked only when every candidate
  is taken or shares nothing with it;
- diffing a tree against a tree of the same shape (taller than the minimum
  height) maps every node to itself and yields no actions, and so does
  diffing a text against the same text;
- a mapped node whose label changed, the root included, gets an update;
- line matching pairs each line with the nearest identical line, then with
  the most similar remaining one at a similarity of at least one half, and
  identical files pair every line with itself;
- the side-by-side view pairs lines by the majority vote of the mapping;
  in each gap after an anchor it pairs a longest common subsequence of
  identical lines (when the gap is small enough for the exact search), and
  it shows every line of both files exactly once. The text it draws is
  stated once escape sequences are stripped, and every piece of every row
  it shows stands in the output in its colour (red deleted, green
  inserted, yellow updated), with the line numbers cyan on moved rows and
  dimmed otherwise;
- the syntax trees reach the library as plain records; converting them
  keeps, in depth-first order, exactly the records the language profile
  keeps, with their kinds, spans and text, and diffing two record lists is
  stated exactly, the too-large refusal included.

The matcher reads nothing outside the destination root's subtree, where
nodes carry no size: its contract asks that the destination root have no
parent and that every destination node of a kind found under the source
root lie under the destination root (a tree whose nodes all lie under its root
meets both).

Layout:

- `src/tree.rs`, `src/mapping.rs`: arena trees and the node mapping.
- `src/matcher/`: top-down, bottom-up and line matching.
- `src/actions.rs`: the edit script and its laws.
- `src/output/`: line pairing, the side-by-side terminal view, text and
  JSON data.
- `src/syntax.rs`, `src/ts_convert.rs`, `src/languages.rs`: the tree-sitter
  boundary, with the trusted declarations of the calls the library makes.
- `app/`: the command-line program (argument handling, file I/O, JSON
  serialisation).
- `tests/`: the test suite.

Languages: 26 tree-sitter grammars are linked (Bash, C, C++, C#, CSS,
Dockerfile, DTD, Go, HTML, Java, JavaScript, JSON, Kotlin, Lua, Make,
Markdown, PHP, Python, Ruby, Rust, Scala, TOML, TypeScript, TSX, XML, YAML).
The build keeps its direct dependencies to thirty crates, six of which are
the parser, terminal and serialisation crates, so the other grammars of the
full language list (Haskell, Dart, Elixir, Julia, OCaml, SQL, Zig and
the rest) are not linked: files with those extensions get `None` from the
language lookup and are diffed line by line.
