pub mod document;
pub mod parser;
pub mod laws;
