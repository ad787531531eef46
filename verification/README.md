# tolearn-core

The core of a local application for studying programs of topics written by a
language model: the checks of a bundle (its manifest, the order of its plan,
the cycles of its dependencies, the progress recorded against it), the graph
of its topics and their layers, the history of its versions, the prompts that
generate a program and examine a topic, the short ids of the blocks of a
stage, the rules that keep an unpacked archive inside its directory, and the
export of a program to Markdown.

Everything under `src/` is written in Verus and verified: each public function
states what it returns in its contract, and the properties that span functions
stand as public proof functions beside them.

- `src/text.rs`: the text operations the rest is built on (trims, splits,
  lines, words, decimal numbers), each stated over `Seq<char>`.
- `src/bundle/`: the checks of a bundle; `scc.rs` finds the strongly connected
  components of the dependency graph with Tarjan's walk.
- `src/graph/`: the graph of topics, with the layer of each.
- `src/history/`: what changed between two versions, and which versions to keep.
- `src/generate/`, `src/exam/`: the prompts, and reading what comes back.
- `src/archive/`: what may be unpacked, and where.
- `src/export/`: the Markdown of a program, page by page.
- `src/block/`: the blocks of a stage and their ids (SHA-256 through `sha2`).

`app/` holds what touches the file system: unpacking archives with `tar`,
`flate2` and `zip`, writing files atomically, writing an export, and writing a
block as YAML with `saphyr`.
