//! A small templating engine for XML-like markup.
//!
//! A template is literal markup interleaved with expression slots and control
//! flow. It is compiled once, by the lexer and the parser, into a document
//! tree; the renderer then walks the tree against a context of bound values
//! and writes text to a sink. Nothing is escaped on the way, and an opening
//! tag is never held against its closing tag.
//!
//! The expressions of a template belong to the host: a context binds the
//! text of each expression to its value, and the engine never looks inside.
//!
//! - `lexer`, `token`: from text to tokens.
//! - `parser`, `tree`: from tokens to the document tree; `grammar` holds the
//!   token form of a tree and the proof that the parser accepts exactly that.
//! - `render`, `value`, `sink`: from a tree and a context to text.
//! - `format`: a value and a format specifier to text.
//! - `template`: the steps in one.
//! - `laws`: what holds of all of them.

pub mod text;
pub mod value;
pub mod format;
pub mod sink;
pub mod tree;
pub mod token;
pub mod lexer;
pub mod parser;
pub mod render;
pub mod template;
pub mod grammar;
pub mod laws;

pub use crate::format::{format_value, Align, FormatError, FormatSpec, Style};
pub use crate::lexer::{lex, LexError};
pub use crate::parser::{parse, Expected, ParseError};
pub use crate::render::{render, render_to_string, RenderError};
pub use crate::sink::{BoundedSink, Sink, WriteError};
pub use crate::template::{CompileError, FnFmt, Template};
pub use crate::token::{Class, Mark, Token, TokenKind};
pub use crate::tree::{Arm, AttrValue, Attribute, Branch, Guarded, Node};
pub use crate::value::{Binding, Case, Context, Value};
