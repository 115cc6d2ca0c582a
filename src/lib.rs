//! Reading and writing the line protocol of a time-series database: one data
//! point per line, made of a measurement name, an optional tag set, a field set
//! and an optional timestamp.
//!
//! ```text
//! measurement,tag1=val1,tag2=val2 field1="val1",field2=true 1729270461612452700
//! ```
//!
//! Each function states in its contract what it returns, over the models
//! defined in [`text`], [`element`] and [`point`]; [`builder`] and [`parser`]
//! state what a line is, and [`round_trip`] proves that points whose names
//! need no escaping read back from their lines. Two small functions are taken
//! on trust: the conversion of a `Vec<char>` to a `String` in [`text`], and
//! the integer-shape test of [`element`], which calls `regex`.

pub mod builder;
pub mod element;
pub mod error;
pub mod escape;
pub mod float;
pub mod number;
pub mod order;
pub mod parser;
pub mod point;
pub mod text;
pub mod traits;

pub use point::LineProtocol;
pub mod round_trip;
