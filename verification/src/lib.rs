//! A table of cryptocurrency tickers: taking in values of uncertain type,
//! ordering the table by a column, and keeping track of highlighted cells.
//!
//! - `normalize` and `record` turn what arrives into records: a text that
//!   writes a number becomes that number, and nothing makes a record fail.
//! - `decimal`, `notation`, `value`, `render` and `rounding` are the numbers:
//!   exact decimals, read from and written to text, ordered by value.
//! - `sort` orders the table by a column, ties kept in place; `order` and
//!   `lex` hold the orders it rests on.
//! - `selection` is the set of highlighted cells.
//! - `model` is the state of the table and what each event does to it.

pub mod decimal;
pub mod lex;
pub mod model;
pub mod normalize;
pub mod notation;
pub mod order;
pub mod record;
pub mod render;
pub mod rounding;
pub mod selection;
pub mod sort;
pub mod text;
pub mod value;
