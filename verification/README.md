# mcpctl dialects

Host schema dialects for MCP server configuration files, verified with Verus.

Every host application declares the same
logical MCP servers under different key names. The host table in `src/dialect.rs`
records each host's spelling, and shared, verified code reads a parsed document in
any host's dialect into dialect-agnostic `Transport` values.

- `src/dialect.rs`: the host table, host lookup, transports and their summaries,
  server lists, parsing a host's config text, and the normalization of a host's
  server entries, with the laws relating them.
- `src/doc.rs`: the parsed document tree and its accessors.
- `src/parsers.rs`: the JSON, JSONC, TOML and YAML parsers, each behind a trusted
  wrapper whose result is named.
- `src/string_map.rs`: a text-to-text map stored sorted by key, so that equal
  contents are stored, compared and listed identically.
- `src/text.rs`: character-level text comparison.
- `app/lib.rs`: reading a config file and handing its text to the library; error
  messages.
