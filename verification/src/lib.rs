//! A lightweight markup parsing engine.
//!
//! The eager mode (`dom`) turns a text into a document tree: the block
//! dispatcher groups lines into blocks, the list decomposer nests list
//! items by indentation, and the inline engine resolves delimiter runs,
//! links, images, code spans and raw markup. A renderer writes the tree
//! out as HTML. The lazy mode (`iterator`) reads block structure off a
//! cursor over the raw bytes and hands out a flat stream of events.
//!
//! Every function says in its contract what it computes, over sequences
//! of characters or bytes. What holds of all texts is stated as lemmas
//! beside the definitions: delimiter runs match by exact length, text
//! nodes are merged, heading levels run from one to six, and the events of
//! a stream nest like a stack.

pub mod dom;
pub mod iterator;
pub mod text;
