# locus

A readonly context and immutable observation substrate, and the readers that derive spans,
inspections and queries from its record stream.

The library under `src/` is verified with Verus:

- `context`, `atom`, `error`: roles, keys, context views, candidates and the Atoms they become.
- `collector`, `generator`, `reporter`, `engine`, `hook`: what bootstrap validates, how each
  requested role resolves (explicit, then inherited, then generated), what a collector chain
  yields, and what becomes of a record's delivery.
- `input`, `query`, `derive`, `span`, `inspect`: framing of the JSONL stream, exact role queries,
  span derivation with crossing windows, and the analyzer mappings with their thresholds.
- `text`, `table`, `options`: byte order, a map kept in key order, and option reading.

`app/` is the `locus` command and the engine runtime around the library: reading standard
input and files, the JSON and TOML forms of the library's values, the environment and process
reads of collectors, shared key files, the report file, and hooks.
