# lunr

The core of a full-text search library in the style of lunr, written in Verus
with its behaviour stated in contracts and proved.

## What is verified (`src/`)

- `query_lexer`, `query_parser`, `query`, `query_parse_error`: the query
  language (terms, fields, wildcards, edit distance, boost, presence). The
  lexer and the parser are specified by functions over the input's bytes; the
  parser's result, or its error, is stated exactly.
- `token`: tokenizing a text (lower-casing, splitting at white space and
  hyphens, positions in bytes).
- `trimmer`, `stop_word_filter`, `stemmer`, `pipeline`: the text pipeline.
- `token_set` and its companions: sets of words held as graphs.
  - `token_set_pattern`: the set a pattern with `*` matches.
  - `token_set_builder`: building a set from sorted words, sharing equal
    endings; the set holds exactly the words added, and no two of its
    reachable nodes read the same words.
  - `token_set_walk`: listing the words of a set.
  - `token_set_intersect`: the words of one set that another matches.
  - `token_set_fuzzy`: the set of paths a string allows with edits.
- `search`: the part of running a query that decides which words a term
  expands to and which documents the required and prohibited clauses admit,
  from what the index holds for each clause.
- `inverted_index`: the postings of the index's words by field, numbered in
  the order the words first come, looked up for each clause of a query
  (`lookup_query`, `query_filter`), and the match data of a term's
  expansions gathered under their field references (`gather_matches`).
- `serialized`: the checks of a serialized index's shape (its parts are
  arrays, each inverted-index entry a term and an object, the terms in
  order), with the first problem found, and its pipeline restored from the
  labels.
- `load`: loading a serialized index, held as plain values: its version,
  fields, field-vector references, the inverted index its entries record
  (postings with their `_index`, fields and documents) and the set of its
  terms.
- `results`: assembling a query's results from the field references it
  considers: one result per admitted document, in the order documents first
  come, with the match data of its field references combined.
- `builder`: adding documents: the fields seen, each field's length and
  terms, and the postings of those terms.
- `set`, `field_ref`, `match_data`, `utils`, `document`.

## Outside the verified part (`app/`)

Floating-point scoring (`Vector`, `idf`), printing, reading a JSON index into
the plain values that `load` works on (and the vectors' scores), and the
`Display`, `Error` and `Serialize` traits on copies of the library's types.

## Not in this library

- The `Index` type itself, and the scoring of results: scores are
  floating-point (BM25 field vectors, `idf`, vector similarity), and the
  vectors, `idf` and the score arithmetic are in `app/`.
- Building the scored index from the documents added (`Builder::build`:
  BM25 field vectors), per-field boosts and the `b` and `k1` parameters,
  which are floating-point, and writing an index out as JSON.
- Token metadata in postings (positions and the like): a match records the
  term and field only.
- Running `gather_matches` for each clause of a query in turn; the pieces
  (expansions, gathering, filtering and assembling results) are verified.
