//! A minimal JSON codec: a recursive-descent parser from text to a value
//! tree, and a structural printer from the tree back to compact JSON text.

pub mod chars;
pub mod error;
pub mod laws;
pub mod numbers;
pub mod parser;
pub mod printer;
pub mod value;

pub use error::DeserializeError;
pub use error::SerializeError;
pub use parser::JsonParser;
pub use value::JsonValue;
