//! A small markup language: a position-tracking lexer, a recursive-descent
//! parser, and an arena-based document tree with query, mutation and
//! serialization operations.

pub mod dom;
pub mod laws;
pub mod lexer;
pub mod node;
pub mod parser;

pub use dom::Dom;
pub use dom::DomError;
pub use node::Node;
pub use node::NodeType;
pub use parser::ParseError;
pub use parser::Parser;
pub use lexer::Position;
pub use lexer::Token;
pub use lexer::TokenType;
pub use lexer::TokenizeError;
pub use lexer::Tokenizer;
