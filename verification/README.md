# symref

Symbolic variable storage and dereferencing, verified with Verus.

`store` turns the fields of a JSON object into `$PREFIX_...` references and
merges them into a session's variable store; `deref` replaces `$VAR` and
`${VAR}` references in text or in the string values of JSON with the stored
values' summaries, leaving unknown references as they are.

Layout:

- `src/` — the verified library: naming (`naming`), the JSON model and its
  compact text (`json`), name-keyed tables (`table`), reference assignment
  and merging (`store`), variable maps for substitution (`deref`).
- `app/` — the command-line program: argument parsing, session files,
  standard streams, conversions from and to `serde_json` values, and the
  `subst` variable map that reports unresolved references on stderr.
- `tests/` — tests of the library.
