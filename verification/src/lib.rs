//! A minimal byte-tape esoteric language: parsing with bracket resolution,
//! a bounds-checked tape interpreter, and an assembly code generator.

pub mod codegen;
pub mod machine;
pub mod parser;
pub mod token;

pub use codegen::compile;
pub use machine::interpret;
pub use machine::Buffer;
pub use machine::RuntimeError;
pub use machine::BUF_SIZE;
pub use machine::EOF;
pub use machine::NEW_LINE;
pub use parser::parse;
pub use parser::ParseError;
pub use token::Token;
