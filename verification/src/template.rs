//! Compiled templates: the lexer and the parser in one step, and rendering
//! as a value that can be written to a sink.

use vstd::prelude::*;
use crate::lexer::{lex, lexed, LexError};
use crate::parser::{parse, parsed, Expected};
use crate::render::{render, render_to_string, accounts, done, rendered, RenderError};
use crate::sink::Sink;
use crate::token::TokenModel;
use crate::tree::{nodes_model, Node, NodeModel};
use crate::value::Context;

verus! {

/// Why a template did not compile.
#[derive(Clone, Copy, Debug, PartialEq, Eq, Structural)]
pub enum CompileError {
    /// The text is not a sequence of tokens.
    Lex(LexError),
    /// The token that begins at the character `at` does not fit (`at` is
    /// the length of the template, in characters, where it ended too early).
    Parse { at: usize, expected: Expected },
}

/// The index in the source of the token at `index`: of its first character,
/// or `end` where there is no such token.
pub open spec fn offset(tokens: Seq<TokenModel>, index: usize, end: usize) -> usize {
    if index < tokens.len() {
        tokens[index as int].at
    } else {
        end
    }
}

/// The tree of a template, or why it has none.
pub open spec fn compiled(src: Seq<char>) -> Result<Seq<NodeModel>, CompileError> {
    match lexed(src) {
        Err(e) => Err(CompileError::Lex(e)),
        Ok(tokens) => match parsed(tokens) {
            Ok(nodes) => Ok(nodes),
            Err(e) => Err(
                CompileError::Parse {
                    at: offset(tokens, e.index, src.len() as usize),
                    expected: e.expected,
                },
            ),
        },
    }
}

/// A template that has been compiled: its document tree, which no render
/// call changes.
#[derive(Debug, PartialEq, Eq)]
pub struct Template {
    pub nodes: Vec<Node>,
}

impl Template {
    pub open spec fn view(&self) -> Seq<NodeModel> {
        nodes_model(self.nodes@)
    }

    /// Compiles a template: all of it, or nothing and the first error.
    pub fn compile(src: &str) -> (r: Result<Template, CompileError>)
        ensures
            match r {
                Ok(t) => compiled(src@) == Ok::<Seq<NodeModel>, CompileError>(t@),
                Err(e) => compiled(src@) == Err::<Seq<NodeModel>, CompileError>(e),
            },
    {
        match lex(src) {
            Err(e) => Err(CompileError::Lex(e)),
            Ok(tokens) => match parse(&tokens) {
                Ok(nodes) => Ok(Template { nodes }),
                Err(e) => {
                    let at: usize = if e.index < tokens.len() {
                        tokens[e.index].at
                    } else {
                        src.unicode_len()
                    };
                    Err(CompileError::Parse { at, expected: e.expected })
                },
            },
        }
    }

    /// Renders the template against a context, writing to `sink` as it goes.
    pub fn render<S: Sink>(&self, context: &Context, sink: &mut S) -> (r: Result<(), RenderError>)
        ensures
            accounts(
                r,
                old(sink).written(),
                final(sink).written(),
                rendered(self@, context@),
                old(sink).unfailing(),
            ),
            final(sink).unfailing() == old(sink).unfailing(),
    {
        render(&self.nodes, context, sink)
    }

    /// Renders the template against a context into a new string.
    pub fn render_to_string(&self, context: &Context) -> (r: Result<String, RenderError>)
        ensures
            match r {
                Ok(text) => rendered(self@, context@) == done(text@),
                Err(e) => e.fault() is Some && rendered(self@, context@).fault == e.fault(),
            },
    {
        render_to_string(&self.nodes, context)
    }
}

/// A rendering that has not been run yet: a function that gives the text,
/// or the error that kept it from doing so, each time it is called.
pub struct FnFmt<F>(pub F);

impl<F: Fn() -> Result<String, RenderError>> FnFmt<F> {
    /// Runs the rendering and writes its text to `sink`.
    pub fn fmt<S: Sink>(&self, sink: &mut S) -> (r: Result<(), RenderError>)
        requires
            call_requires(self.0, ()),
        ensures
            final(sink).unfailing() == old(sink).unfailing(),
            match r {
                Ok(()) => exists|t: String|
                    call_ensures(self.0, (), Ok::<String, RenderError>(t)) && final(sink).written() == old(sink).written() + t@,
                Err(RenderError::Write) => (exists|t: String|
                    call_ensures(self.0, (), Ok::<String, RenderError>(t)) && !old(sink).unfailing() && old(sink).written().is_prefix_of(final(sink).written())
                        && final(sink).written().is_prefix_of(old(sink).written() + t@))
                    || (call_ensures(self.0, (), Err::<String, RenderError>(RenderError::Write))
                    && final(sink).written() == old(sink).written()),
                Err(e) => call_ensures(self.0, (), Err::<String, RenderError>(e)) && final(sink).written() == old(sink).written(),
            },
    {
        match (self.0)() {
            Err(e) => Err(e),
            Ok(t) => match sink.write(t.as_str()) {
                Ok(()) => Ok(()),
                Err(_) => Err(RenderError::Write),
            },
        }
    }

    /// Runs the rendering and gives its text.
    pub fn to_string(&self) -> (r: Result<String, RenderError>)
        requires
            call_requires(self.0, ()),
        ensures
            call_ensures(self.0, (), r),
    {
        (self.0)()
    }
}

} // verus!
