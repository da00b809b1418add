# supportfile_pii_anonymizer

Offline, deterministic anonymization of PII and environment-identifying data
found in Azure and Linux diagnostics (sosreport / supportconfig), written in
Verus: the library's behaviour is stated in `requires` / `ensures` contracts
and proved.

Recognizers detect spans (IPv4/IPv6 addresses, MAC addresses, GUIDs, emails,
FQDNs, archive-root hosts, Azure resource ids, secrets); overlapping spans are
resolved; each surviving span is replaced by a stable token such as
`[[IPv4|net-A|h1]]`, `[[MAC|00:0d:3a|dev1]]`, `[[GUID-A]]`, `[[HOST-B]]`,
`[[AZURE_NAME-A]]` or `[[SECRET]]`.

## Layout

- `src/engine.rs` — the `Anonymizer`: scrubbing text, replacing one span per
  entity type, `hint_cidr`, `add_known_hostname`; the specification of the
  whole pipeline (`scrub_spec`).
- `src/store.rs` — the mapping store (first-seen tables) and its laws: every
  table only grows, and a value once numbered keeps its number.
- `src/correlation.rs` — laws of the tokens: correlation preservation,
  distinct values get distinct tokens, addresses share a `net-` label exactly
  when they share a subnet, `hint_cidr` decides the subnet of bare addresses.
- `src/overlap.rs` — overlap resolution (stable sort, greedy selection); the
  spans kept never overlap.
- `src/json.rs` — key-aware scrubbing of JSON documents (`JsonValue`); the
  shape of a document is kept.
- `src/known_hosts.rs` — registered hostnames, kept duplicate-free and
  longest first.
- `src/recognizers/` — one module per detector; what a regular expression
  matches is named (`src/pattern.rs`), what the detector does with each match
  is proved.
- `src/ip.rs`, `src/netaddr.rs`, `src/allowlist.rs`, `src/strategy.rs`,
  `src/text.rs`, `src/bytes.rs` — network math and base-26 labels, address
  parsing, the built-in allowlist, token spelling, UTF-8 and byte helpers.
- `app/lib.rs` — the bridge between `serde_json::Value` and `JsonValue`.
- `tests/` — behaviour on concrete inputs.

## Trusted boundary

`regex` is called through `find_spans`, `group_spans` and `escape`
(`src/pattern.rs`); `str::to_lowercase` and `String::push` through
`to_lowercase` and `push_char` (`src/text.rs`). Where the result is a few
lines to state (`regex::escape`, `String::push`, the shape and order of
regex matches) the contract states it; otherwise it names the result
(which text a pattern matches, the Unicode lowercase mapping).
