//! Dynamic typing for an ordered key-value store whose tables are typed at
//! compile time: a caller that knows the type of a key or value only as a
//! descriptor, such as `Vec<(u32,String)>`, reads, writes and orders the
//! bytes that the engine keeps for it.
//!
//! - [`descriptor`] parses a descriptor into a [`tree::TypeTree`];
//!   [`names`] shows that the name which the engine writes for a type is
//!   read back as that type.
//! - [`tree`] holds the type tree, its fixed width and whether its values
//!   may bear a sort order.
//! - [`value`] holds the canonical value, [`order`] the order of values.
//! - [`codec`] is the codec between values and bytes: its model, its
//!   framing, the encoder, the decoder, and what holds of them for every
//!   type and value. [`parser`] is the codec as a caller sees it.
//! - [`transcode`] holds the adapters through which the engine sees keys
//!   and values, [`binding`] the way the schema of a table is learned.
//! - [`wire`] and [`le`] read and write lengths and numbers; [`engine`] and
//!   [`text`] hold what the library takes on trust from the engine and the
//!   standard library.
//! - [`cli`], [`process`] and [`print`] decide what a run does and shows.

pub mod binding;
pub mod cli;
pub mod codec;
pub mod descriptor;
pub mod engine;
pub mod error;
pub mod le;
pub mod names;
pub mod order;
pub mod parser;
pub mod print;
pub mod process;
pub mod text;
pub mod transcode;
pub mod tree;
pub mod utils;
pub mod value;
pub mod wire;
