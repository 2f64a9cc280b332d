# serde_columnar

Columnar storage encodings, verified with Verus.

- `src/strategy/`: the codecs. Booleans as the lengths of their alternating
  runs, any value as runs and literal runs, numbers as run-length encoded
  differences, and numbers as delta-of-delta bit codes, each with its
  encoder, its decoder, and a proof that decoding gives back what was
  encoded.
- `src/column/`: columns built on the codecs, behind one trait whose law is
  the round trip.
- `src/iterable.rs`: readers that yield a column's values one at a time.
- `src/args.rs`: the options of the `columnar` attribute and the rules they
  obey: strategies and the column each selects, `compress` settings, and the
  checks on optional fields.
- `src/borrow.rs`, `src/lifetime_list.rs`, `src/type_shape.rs`: the `borrow`
  option: which lifetimes a field borrows, a reader for lists such as
  `'a + 'b` that splits the text as Rust's lexer does (Unicode identifiers,
  white space and comments), and the lifetimes that a field's type mentions,
  read from a model of the type.
- `src/codec.rs`, `src/varint.rs`, `src/postcard_io.rs`: the byte format of
  single values and the calls into postcard that read and write them.
- `app/`: the serde side: postcard's serializer and deserializer over the
  library's byte sink and source, the row traits, serde impls for columns and
  row containers, and `to_vec`, `from_bytes`, `iter_from_bytes`.

## What is not here

- The `#[columnar]` attribute macro itself. It is a procedural macro: it
  reads the item with `syn` and `darling` and writes the impls with `quote`,
  and such a crate is built as a proc-macro crate, which this library crate
  is not. What the macro decides, as opposed to the code it writes, stands
  in `src/args.rs` and `src/borrow.rs`: the checks on the fields, the
  strategy and column kind of a field, its compression, and the lifetimes it
  borrows. `app/type_shape.rs` turns a `syn::Type` into the library's
  `TypeShape`, over which `src/type_shape.rs` collects the lifetimes.
- Columns of strings. The run-length codecs compare values through
  `Rleable::same`, whose contract is equality of the values; for `String`
  Verus relates equal contents only through the view, not as equal values,
  so the library's encodable values are the integer types and `bool`.
