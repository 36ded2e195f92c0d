//! A small INI parser: a line classifier and a parse driver that emits
//! (section, name, value) events, and an in-memory indexed reader built on them.

pub mod error;
pub mod number;
pub mod order;
pub mod parser;
pub mod reader;
pub mod text;

pub use error::IniParseError;
pub use reader::IniReader;
pub use parser::{ini_parse_string, ini_parse_string_with_options, IniHandler, ParseOptions};
