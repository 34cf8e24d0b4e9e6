# gamut

XMP metadata packets and ICC profile identity, as a Rust library whose behaviour is stated in
contracts and proved with Verus.

## What it does

- Reads an XMP packet (UTF-8, UTF-16 or UTF-32, with or without its `<?xpacket?>` wrapper) into a
  graph of properties, and writes a graph back in one canonical RDF/XML form.
- Changes an existing packet in one transaction that keeps its encoding, instructions and padding.
- Mends packets: transcoding, removal of header attributes, a misspelt `rdf:RDF` prefix, missing
  closing tags of the wrappers, closing tags in the wrong case, the canonical envelope.
- Reads ICC profile headers, tag tables and tags, and computes the identity of a profile.
- Holds a catalogue of standard ICC profiles. Their bytes come from files beside the library.

## Layout

| Part | Contents |
| --- | --- |
| `src/text.rs`, `src/encoding.rs` | byte and character helpers; the five text encodings |
| `src/packet.rs`, `src/prefix_case.rs`, `src/repair.rs` | the packet envelope and the repairs |
| `src/xml.rs`, `src/tree.rs` | the boundary to `quick_xml`; tokens and element trees |
| `src/reader.rs`, `src/document.rs` | from an element tree to a graph and its source layout |
| `src/model.rs`, `src/namespace.rs`, `src/writer.rs` | the graph, namespaces, and the writer |
| `src/edit.rs` | transactions on an existing packet |
| `src/icc/` | headers, tags, profiles, MD5, identities, the catalogue |
| `src/relexing.rs`, `src/rescanning.rs`, `src/round_trip.rs` | what is written is read back |
| `src/resplicing.rs`, `src/rewriting.rs`, `src/headers.rs`, `src/mending.rs` | what edits and repairs keep |
| `src/structures.rs` | that a graph does not depend on the form of its structures |
| `src/spans.rs`, `src/shifting.rs` | source spans, and that a graph does not depend on its place |
| `app/` | loading of the profile files |
| `tests/` | scenarios, run against the real XML lexer |

## What is trusted

The library proves its contracts from those of a few calls that Verus does not see into: the lexer,
attribute normalization and entity resolution of `quick_xml`, all in `src/xml.rs`, and
`String::from_utf8`, `String::push` and `char::from_u32`. The doc comment of each says what is
claimed of it. The laws that a written packet is read back rest on the claim that the lexer reads
plain markup as what it is.
