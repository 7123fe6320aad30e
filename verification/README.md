# laplace

An authoritative map of what exists in a project and how it connects: a
vault of Markdown entities with YAML frontmatter, governed by a
`schema.yaml`, from which graph queries, summaries and a read-only view are
derived. Writes are transactional: every change is checked against a
re-validation of the whole vault before a file is touched.

## Layout

- `src/` — the verified library (Verus). Each public function states what
  it returns in its `ensures`, over spec functions of its own module.
  - `text`, `sort`, `diag` — text primitives, stable composite-key ordering,
    diagnostics and how they render.
  - `model` — refs (`kind:namespace/name`), the schema, entities,
    first sentences, capped edit distance.
  - `vault` — discovery, frontmatter framing, parsing an entity file,
    assembling a vault from the files read.
  - `graph`, `bfs`, `query` — the derived graph and its queries (search, get,
    neighbors, trace, impact, architecture, schema); `render` — their
    results as text.
  - `validate` — every finding of a validation run, ordered.
  - `summary` — the token-budgeted context block.
  - `ops`, `schema_ops` — the write operations as plans; `commit` — the
    whole-vault check a plan must pass.
  - `drift`, `serve`, `mcp`, `skill` — the decisions behind the freshness
    audit, the HTTP view, the MCP server and the skill installer.
- `app/` — the program around the library: the command line, reading and
  writing files, YAML and JSON, git, HTTP and stdio.
- `tests/` — tests of the library on concrete values.
