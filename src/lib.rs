pub mod raw_string;
pub mod item;
pub mod parser;
pub mod document;
pub mod encode;

pub use document::{Document, ImDocument};
pub use item::{Item, Key, Table, TableEntry, Value};
pub use parser::{ErrorKind, TomlError};
pub use raw_string::RawString;
