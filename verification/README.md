# harness_proxy

A proxy for model APIs (OpenAI-style chat completions, Anthropic messages,
Gemini) that writes every exchange to a hash-chained, one-line-per-entry JSON
ledger before the response (an event stream too, read whole) is released.

The library in `src/` is verified with Verus:

- `json`: JSON values and their mathematical model; parsing goes through
  `serde_json`.
- `jcs`: the canonical (RFC 8785) text of a value (members in UTF-16 key
  order), with the laws that member order does not matter and that escaped
  text holds no control character.
- `number`: floating-point numbers written the way ECMAScript writes them.
- `hash`: `sha256:<hex>` digests of canonical JSON (SHA-256 from `sha2`).
- `ulid`: ULIDs from a clock reading and random bytes; one taken at a later
  millisecond sorts after one taken earlier.
- `timestamp`: entry time stamps, `chrono`'s RFC 3339 UTC text with
  milliseconds (`YYYY-MM-DDTHH:MM:SS.mmmZ` up to the year 9999).
- `ledger`: reading a session file (dropping a torn last line; refusing
  lines that are not UTF-8 or JSON, newer versions and broken chains) to find
  the next sequence number and `prev` hash, and planning the next entry's
  line. Where the appended entry's think and act read back from their
  canonical text (no repeated keys, at most 126 levels of nesting, and
  floating-point numbers whose canonical text reads back unchanged) and the
  file is shorter than `i64::MAX` bytes, the file reads back as a valid chain
  with one more entry, linked to the one before.
- `extract`, `sse`: what a buffered or streamed model response said (text,
  reasoning, actions); the text is all of the response's text, joined, read
  whole or streamed.
- `proxy`: the per-request decisions (session, which must be a ULID; input
  hash, upstream URL, forwarded headers, response headers), which summary
  reads a response, and the fail-closed order of steps.

`app/main.rs` is the server: HTTP with `axum` and `reqwest`, file writes with
fsync, logging. It calls the library for every decision.
