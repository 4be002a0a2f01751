# jagged_array

A two-dimensional jagged array, `Jagged2<T>`, whose rows may differ in length.
All items lie in one contiguous buffer, row after row; a table records where
each row starts and how long it is. The shape is fixed once built; items can
be changed. `Jagged2Builder<T>` builds an array row by row.

The library is written in Verus. Operations are specified over the rows of the
array (a `Seq<Seq<T>>`) and proved. Where the result rests on `T`'s own `Debug`
or `Hash`, the contracts state which row is handed to std, in which order;
what std and `T` make of it is not stated.

- `src/shape.rs` — the buffer/row-table layout shared by both types, and the
  lemmas about it (appending, truncating, overwriting, concatenation).
- `src/jagged2.rs` — `Jagged2`: lookup, mutable access, flat views, equality,
  cloning, indexing, construction from rows.
- `src/builder.rs` — `Jagged2Builder` and its conversion into `Jagged2`.
- `src/stream.rs` — `Stream`, row-by-row streaming iteration, on top of
  `streaming_iterator::Convert`.
- `src/debug.rs` — the text layout of an array.
- `app/` — glue for traits the library cannot carry itself: serde
  (de)serialization, `StreamingIterator`, `Debug`, building from iterators.
