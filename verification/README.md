# glabrous

A minimalistic, logic-less template library with a single tag form,
`{{name}}`, written in Verus.

- `src/` is the verified library. `types` holds `Token`, `Template`,
  `Context` and `ProcessResult`; `variables` the map of a context, kept as a
  list of bindings without repeated names; `parser` reads text as a template;
  `template` and `process` hold the operations on templates; `context` those
  on contexts; `laws` states and proves how the operations relate, such as
  `to_text(from_text(s)?) == s`.
- `app/` holds what reads and writes files and the serde forms of the types.
- `tests/` exercises the library on concrete values.
