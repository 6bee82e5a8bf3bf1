# json_ld_rs

A JSON-LD 1.1 processor written and checked with Verus: context processing, term
definitions, IRI and value expansion, the Expansion algorithm and the inverse
context used for term selection. Every function is proved free of panics and
overflow against its contract; how much each contract pins down varies: IRI and
value expansion are stated exactly, while the expansion of whole documents is
stated for the keys it keeps and for entries of plain values.

Layout:

- `src/json.rs`: JSON values, their mathematical model (`Json`), object operations
  and the laws of reading after writing.
- `src/container.rs`: container mappings and their parsing.
- `src/context.rs`: active contexts, Create Term Definition and Context Processing,
  with the laws that keep term definitions in key order, keep protected terms and
  give terms mapped to null, a keyword or an absolute IRI (directly or by `@id`, with
  an `@id` or `@vocab` type) exactly that mapping.
- `src/expand.rs`: IRI expansion, value expansion and the Expansion algorithm, with
  the laws that expanded objects are keyed by keywords and IRIs, that a defined
  term expands to its IRI, and that a plain value under an IRI key becomes a value
  object under that IRI.
- `src/inverse.rs`: the inverse context and term selection.
- `src/remote.rs`: loading documents through a `DocumentLoader`, and the decisions of
  the HTTP loader (the `Accept` header, what a response is).
- `src/util.rs`, `src/strs.rs`, `src/error.rs`: keywords, compact IRIs, `add_value`,
  URLs (through the `url` crate), strings and error codes.
- `app/`: JSON text through `serde_json` and the HTTP document loader through
  `reqwest`.
- `tests/`: tests of the library on concrete values.
