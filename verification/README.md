# cfst

Speed-tested addresses for content delivery domains. Lists of candidate addresses
are measured from time to time, the fastest are kept for each configured domain,
and DNS queries for these domains and the names below them are answered with them.

- `src/` is the library, verified with Verus. It computes on plain values: it reads
  the `cfst-*` directives and the candidate lists, ranks what was measured, keeps the
  results, and decides how a query is answered. Proof functions named `law_...` state
  what holds of several functions together.
- `tests/` runs the library on concrete values.
- `app/` is the service around the library: files, TCP connections, tasks, locks and
  the clock.

What is taken on trust from `ipnet`, `url` and the standard library is written in the
contracts of the functions marked `external_body` in `src/net.rs` and
`src/config/parser.rs`, and in the one `assume_specification` in `src/text.rs`.
