# ores_cli_sidecar_module

A verified audit of a repository's sidecar runtime configuration
(`.ores-sidecar.toml`), written in Verus.

- `src/model.rs`: findings, their severity, and the command report that
  collects them.
- `src/toml_tree.rs`: TOML values as plain data, lookup in tables, and the
  one call into the `toml` parser.
- `src/text.rs`: decimal numerals, finding targets, and the byte-level rules
  for names, environment keys, secret-bearing keys and relative paths.
- `src/address.rs`: which texts are IPv4 or IPv6 addresses, and which of
  those are loopback addresses.
- `src/audit.rs`: the audit itself: what it reports for each configuration,
  in order, and the proof that a configuration passes exactly when it is
  well formed.
- `src/audit_properties.rs`: rules the findings obey: where each finding of
  the `sidecars` list is located and in which order they come, when the
  count, entry-shape, duplicate-name, address and runtime-key errors come,
  and which findings the root table gets.
- `src/env_boundary/`: the report model with structured details and
  metadata, kept in an ordered map of JSON values.
- `app/lib.rs`: reading the configuration file from the repository.
