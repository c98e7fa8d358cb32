# nanojson

A JSON serializer and pull parser whose behaviour is specified and proved with Verus.

- `src/` is the verified library.
  - `write.rs`: byte sinks (`SliceWriter`, `SizeCounter`, `Vec<u8>`, `ArrayWriter`).
  - `format.rs`, `serialize.rs`: the text of values (escaping, numbers, indentation) and
    the `Serializer`, whose every call is specified by the bytes it writes.
  - `grammar.rs`, `deserialize.rs`: the token grammar as specification functions, and
    the `Parser`, whose every call is specified by them.
  - `number.rs`, `values.rs`, `maps.rs`, `entries.rs`: `Serialize` and `Deserialize`
    for the standard types, and the `parse*` / `stringify*` entry points.
  - `fixed.rs`: `Serialize` and `Deserialize` for arrayvec's `ArrayVec` and `ArrayString`.
  - What the traits promise of a value's text and of what a read gives holds for the
    implementations whose `obeys_json_text` / `obeys_read_end` is true: every one in this
    crate. Impls written elsewhere, the derived ones among them, leave the flags false.
  - `report.rs`, `error.rs`: errors and their messages, and the rendering of a parse
    error under the line it points into.
  - `laws.rs`, `roundtrip.rs`, `map_laws.rs`: what is read back of what is written.
  - `derive/`: reading the item a derive is applied to from its token trees, and
    writing the source of its `Serialize` and `Deserialize` impls.
- `tests/` runs the library.
- `app/` holds what the library leaves to its callers: printing to stderr, the std
  formatting and error traits, and the compiler side of the derives.
