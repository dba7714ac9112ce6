//! The lazy mode: a cursor over the raw text and a parser that hands out
//! one event at a time.

pub mod event;
pub mod nesting;
pub mod parser;
pub mod scanner;

pub use event::{Alignment, Event, Tag};
pub use parser::{events, Parser};
pub use scanner::Scanner;
