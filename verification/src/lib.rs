//! A jagged array: a two-dimensional array whose rows may differ in length.
//!
//! `Jagged2<T>` behaves like a boxed slice of boxed slices, but keeps all items
//! in one contiguous buffer, row after row, with a table of where each row
//! starts and how long it is. Its shape is fixed once built; its items can be
//! changed. `Jagged2Builder` builds one row by row.
//!
//! Every operation is specified over the array's rows, a `Seq<Seq<T>>`.

pub mod builder;
pub mod debug;
pub mod jagged2;
pub mod shape;
pub mod stream;

pub use builder::Jagged2Builder;
pub use debug::format_rows;
pub use jagged2::Jagged2;
pub use stream::Stream;
