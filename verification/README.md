# breezy

Verified core of Breezy's XML revision serialisers (formats 5 and 8) and of
its chunk-to-line splitter, written in Verus.

## Layout

- `src/` — the verified library.
  - `escape.rs`: XML escaping of text and of UTF-8 bytes (matching done by
    the `regex` crate), the `\x..` rewriting of characters XML cannot carry,
    and a model of how an XML reader resolves references (`unescape`). Each
    escaper ensures that its output is its input with each character of
    its pattern's class replaced by its reference, that it reads back as
    the input, and that it holds no raw markup; the two agree on text
    without characters above U+FFFF. This rests on what the regex wrappers
    state of the two fixed patterns' matches, as the `regex` documentation
    describes them.
  - `lines.rs`: splitting a stream of byte chunks into lines, step by step
    (`ChunksToLinesIterator`) or at once (`chunks_to_lines`, `split_lines`);
    the first `\n` is found with `memchr`.
  - `revision.rs`: the revision record and its property map, kept sorted by
    name.
  - `xml.rs`: the plain model of a parsed XML element, and the calls into
    `xmltree` that parse a document and build the model.
  - `xml_serializer.rs`: writing a revision as XML, reading one from an
    element or from XML text, and the law that reading what was written
    gives the revision back (`lemma_read_after_write`). That law takes as
    given that the written text is well-formed and that its parsed root
    holds what was written (`view_reads_as`): how `xmltree` parses is named,
    not stated.
  - `text.rs`: decimal and hexadecimal rendering, `i32` parsing, the text
    syntax that `f64` parsing accepts, UTF-8 conversions.
- `tests/` — tests of the library on concrete values, with the real outside
  crates linked.
- `app/` — the `brz` launcher and the Python bindings (`pyo3`), file
  reading, the floating-point timestamp, and the checks that the library's
  preconditions ask of its callers.
