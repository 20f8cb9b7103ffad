//! A small data model of configuration values (null, booleans, strings,
//! numbers, arrays and objects) and a renderer that writes a value tree as
//! indented text with single-quoted strings, a trailing comma behind every
//! entry and object keys in ascending order.

pub mod balance;
pub mod object;
pub mod order;
pub mod render;
pub mod text;
pub mod value;

pub use object::ObjectMap;
pub use order::key_precedes;
pub use text::indent;
pub use value::{HasSonnet, Jsonnet, JsonnetTypes, Value};
