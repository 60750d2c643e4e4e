pub mod manifest_parser;
pub mod manifest_source;
