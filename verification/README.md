# rxml

Restricted XML 1.0 parsing and encoding with namespaces, written in Verus:
the executable code carries `requires`/`ensures` contracts which Verus proves.

No DTDs, no processing instructions, no comments, no custom entities;
UTF-8 and XML 1.0 only; namespace-well-formedness is enforced. Parsing is
streamed and can be driven push- or pull-based; encoding is streamed too.

## Layout

- `src/validation.rs`, `src/strings.rs`: the `Name`, `NCName` and `CData`
  string types, whose type invariants are the XML productions.
- `src/lexer/`: the byte-level lexer. Each step is specified per state
  (token, next state, error, bytes consumed); `Lexer::lexes_bytes` chains
  the steps of one call of `lex_bytes`. Some results are left open, such as
  which prefix of text is emitted when the token length limit falls inside a
  CDATA section. Feeding a document in pieces, each until `WouldBlock`,
  lexes as feeding it whole (`law_lexing_resumes_after_would_block`,
  `law_following_bytes_change_no_finished_call`,
  `law_lexing_in_two_pieces`).
- `src/parser/`: the raw parser (tokens to raw events) and the namespace
  resolver (raw events to resolved events), each specified by a spec
  function of one step; one call of `parse` is related to the tokens which
  a recording token source delivered during it (`Parse::consumes`); the
  combined `Parser`; token sources over byte slices, which record the
  tokens they deliver and how the lexer produced them.
- `src/driver.rs`, `src/future.rs`: push-, pull- and poll-driven drivers,
  whose results are tied to the lexer's run over the bytes given
  (`lexer_delivers`, `slice_delivers`) and to the parser's `consumes`.
- `src/writer/`: escaping, the namespace tracker of the encoder and the
  encoder itself, whose output bytes are specified exactly.
- `src/display.rs`: human-readable error descriptions.
- `app/`: I/O around the library: a parser over any `std::io::BufRead`, the
  tokio-based asynchronous reader and stream, `Display`/`Error` for errors.

Laws of the library stand as public proof functions named `law_*` and as
`ensures` clauses (for instance the stickiness of errors in every parser).
