//! Decoding of T2B configuration tables and synchronisation of the size
//! column of their `CPK_ITEM` rows.
//!
//! A table is a byte buffer: a header, a stream of bit-packed entries, a pool
//! of string values, a checksum section that names the entries, and a footer.
//! [`table::parse_t2b`] decodes one, and [`patch::synchronize`] takes two, an
//! original and a patched one, and gives the bytes of the original with the
//! sizes of the patched one written in place.
//!
//! - [`reader`] and [`writer`]: little-endian numbers in a buffer.
//! - [`text`]: the strings of a table and the numbers they spell out.
//! - [`entries`]: the entry stream and the detection of the value width.
//! - [`table`]: the whole table.
//! - [`patch`]: the sizes of the patched table and their writing.
//! - [`layout`], [`frame`], [`redecode`] and [`laws`]: what is proved of
//!   synchronising, from the places of the values in the bytes up to what
//!   the output holds.

pub mod entries;
pub mod error;
pub mod frame;
pub mod laws;
pub mod layout;
pub mod patch;
pub mod reader;
pub mod redecode;
pub mod table;
pub mod text;
pub mod writer;
