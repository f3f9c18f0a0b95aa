# fuga

Binary hyperdimensional computing for code analysis. The library in `src/`
is verified with Verus; file I/O and the floating-point scores live in `app/`.

## Layout

- `src/` — the verified library.
  - `bits`, `hypervector`: bit-level facts and binary hypervectors (bind,
    bundle, permute, balance, byte codecs).
  - `wave_cube`, `cube_file`, `tensor_phase`: the N-dimensional grid of
    hypervector cells, its binary file format and memory-mapped layouts.
  - `information_triangle`, `synthesizer`, `pentagon`: accumulation of layer
    signals, attack vector synthesis and a labelled vector store.
  - `layers`: the syntax, chaos and semantic analysis layers; they work on
    plain shapes of a Rust syntax tree. `layers::source` parses source text
    with `syn` into those shapes and runs the chaos and semantic layers;
    `layers::syntax_tree` converts a parsed file into the tree the syntax
    layer walks, and the walk itself.
  - `agent`: agent run records, their corpus entries, the agent's script and
    its security scan, and the error summaries, search queries and loop
    decisions of a refactoring round.
  - `engine`, `token_bridge`, `vocab`, `corpus`, `lexer`, `text`, `args`:
    source statistics, token encoding, vocabulary lists in string order,
    corpus tokenization, a character-level Rust lexer, string helpers and
    command-line argument lookup.
  - `gguf`: writing and scanning GGUF containers.
  - `refactor`: the source rewrites that the refactoring hints apply.
  - `entropy`, `gpu`: the calls to `rand` and the hasher, and the GPU state.
- `app/` — ordinary Rust around the library: file and memory-map I/O, serde
  copies of library types, and the measures that are floating-point.
- `tests/` — scenario tests, run against the compiled library.

Each law of the library is a public proof function whose name starts with
`law_`. Contracts are stated over spec functions. Where a result comes from
the thread-local random generator, the contract states what holds of every
outcome. Results of outside functions, such as the seeded generator, the
default hasher, JSON parsing and lower-casing, go through named spec
functions.
