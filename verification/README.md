# cbor_diag

Parses CBOR data items from binary, hex (with `#` comments) or diagnostic
notation, and prints them as binary, annotated hex or diagnostic notation,
keeping as much of the encoding's structure (integer widths, indefinite
lengths, tags) as possible. The library is verified with Verus.

Layout:

- `src/syntax.rs`: the data model (`DataItem` and its parts) and its
  mathematical view `SpecItem`.
- `src/parse/`: the binary parser (`binary.rs`), the diagnostic notation
  grammar and parser (`lexical.rs`, `diag.rs`) and `parse_hex`.
- `src/encode/`: the binary encoder (`bytes.rs`), diagnostic notation
  (`diag.rs`, and `compact.rs` on its one-line layout), annotated hex
  (`hex.rs`, `annotated.rs`, `annotate.rs`, `bounds.rs`, and `oneline.rs`
  on comments that stay on their line), and `floatfree.rs` on items whose
  renderings ask for no float text.
- `src/laws.rs`, `src/readback.rs`: the round trips, binary and annotated
  hex, and the laws relating the parsers and the annotated hex layout,
  proved over the specifications.
- `src/codecs.rs`, `src/text.rs`, `src/float.rs`: base16/base64 codecs,
  string helpers, and the interface through which callers supply the texts
  and values of floating point numbers.
- `app/main.rs`: the command line tool (reads standard input, writes
  standard output).
- `tests/`: the test suite.
