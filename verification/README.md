# triblenka

A server-first web framework for content-driven sites, at its spike stage: a template
compiler, a rendering runtime, a content layer, and the benchmark site built from them. The
library is written in Verus: every function in `src/` carries a contract, and Verus proves each
one except the few wrappers whose bodies call outside code and whose contracts are trusted.

- `src/compiler` parses `.tri` templates into documents, lowers them to runtime descriptors, and
  emits Rust source for release builds.
- `src/runtime` renders descriptors into sinks, escaping what bindings write, and records which
  expressions a render read.
- `src/content` splits markdown documents at their frontmatter, assembles posts, derives slugs
  and keys from paths, computes digests, and decides what a load changes.
- `src/site` is the benchmark site: its deterministic fixture, its page bindings, the field diff
  that drives incremental rebuilds, and the median of timing samples.
- `app/` is the `tri` command line: files, the redb store, YAML decoding, timing and printing.

Two outside crates are called from `src/` behind trusted contracts, `blake3` for digests and
`comrak` for markdown, and so are a few std functions that have no specification in vstd
(`String::push`, `String::with_capacity`, `char::to_uppercase`). Where a result takes more than
a few lines to state, the contract names it rather than restating the algorithm behind it.
