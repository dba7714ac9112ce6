//! The eager mode: a document tree, the parsers that build it and the
//! renderer that walks it.

pub mod ast;
pub mod inline_parser;
pub mod list_parser;
pub mod parser;
pub mod renderer;

pub use ast::{Alignment, Block, Inline, ListItem};
pub use inline_parser::InlineParser;
pub use list_parser::ListParser;
pub use parser::Parser;
pub use renderer::HtmlRenderer;
