//! The renderer: walks a document tree against a scope of bound values and
//! writes text to a sink, in document order.
//!
//! What a tree renders to is defined on the tree's model by `render_nodes`
//! and the functions beside it: the text that is written, and the fault that
//! ends the walk if there is one. Text written before a fault stays written.

use vstd::prelude::*;
use crate::format::{format_value, formatted, FormatError};
use crate::sink::Sink;
use crate::tree::{
    attr_value_model, attribute_model, attributes_model, guardeds_model, node_model, nodes_model,
    AttrValue, AttrValueModel, Attribute, AttributeModel, Guarded, GuardedModel, Node, NodeModel,
};
use crate::value::{bind, bind_in, lookup, resolve, scope_of, Bound, Context, Entry, Value};

verus! {

/// Why the walk of a tree ended early, apart from the sink.
pub enum Fault {
    /// The expression has no binding.
    Unbound(Seq<char>),
    /// The condition is bound to something other than a boolean.
    NotBoolean(Seq<char>),
    /// The iterable is bound to something other than a list.
    NotIterable(Seq<char>),
    /// The pattern of a binding or a loop does not match its value, or no arm
    /// matches the scrutinee; the text is the pattern or the scrutinee.
    NoMatch(Seq<char>),
    /// The value of the expression cannot be formatted as its slot asks.
    Format(Seq<char>, FormatError),
}

/// Why a render call failed.
#[derive(Debug, PartialEq, Eq)]
pub enum RenderError {
    Unbound(String),
    NotBoolean(String),
    NotIterable(String),
    NoMatch(String),
    Format(String, FormatError),
    /// The sink refused a fragment.
    Write,
}

impl RenderError {
    /// The fault that the error reports; none for a refusal by the sink.
    pub open spec fn fault(self) -> Option<Fault> {
        match self {
            RenderError::Unbound(e) => Some(Fault::Unbound(e@)),
            RenderError::NotBoolean(e) => Some(Fault::NotBoolean(e@)),
            RenderError::NotIterable(e) => Some(Fault::NotIterable(e@)),
            RenderError::NoMatch(e) => Some(Fault::NoMatch(e@)),
            RenderError::Format(e, f) => Some(Fault::Format(e@, f)),
            RenderError::Write => None,
        }
    }
}

/// The outcome of rendering on a sink that takes everything: the text
/// written, and the fault that stopped the walk after it, if any.
pub struct Rendered {
    pub text: Seq<char>,
    pub fault: Option<Fault>,
}

/// A walk that wrote `text` and met no fault.
pub open spec fn done(text: Seq<char>) -> Rendered {
    Rendered { text, fault: None }
}

/// A walk that met a fault before it wrote anything.
pub open spec fn failed(fault: Fault) -> Rendered {
    Rendered { text: Seq::empty(), fault: Some(fault) }
}

/// `a`, and after it `b` unless `a` ended in a fault.
pub open spec fn then(a: Rendered, b: Rendered) -> Rendered {
    if a.fault is Some {
        a
    } else {
        Rendered { text: a.text + b.text, fault: b.fault }
    }
}

/// The value of an expression under its specifier.
pub open spec fn slot_text(scope: Seq<Bound>, expr: Seq<char>, spec: Option<Seq<char>>) -> Rendered {
    match lookup(scope, expr) {
        None => failed(Fault::Unbound(expr)),
        Some(v) => match formatted(v, spec) {
            Ok(t) => done(t),
            Err(e) => failed(Fault::Format(expr, e)),
        },
    }
}

/// Whether a condition holds.
pub open spec fn truth(scope: Seq<Bound>, condition: Seq<char>) -> Result<bool, Fault> {
    match lookup(scope, condition) {
        None => Err(Fault::Unbound(condition)),
        Some(Value::Bool(b)) => Ok(b),
        Some(_) => Err(Fault::NotBoolean(condition)),
    }
}

/// The entries of a conditional list from `from` on: each literal whose
/// condition holds, followed by one space; nothing for the others.
pub open spec fn guarded_text(entries: Seq<GuardedModel>, scope: Seq<Bound>, from: int) -> Rendered
    decreases entries.len() - from,
{
    if from < 0 || from >= entries.len() {
        done(Seq::empty())
    } else {
        match truth(scope, entries[from].condition) {
            Err(f) => failed(f),
            Ok(true) => then(
                done(entries[from].literal),
                then(done(" "@), guarded_text(entries, scope, from + 1)),
            ),
            Ok(false) => guarded_text(entries, scope, from + 1),
        }
    }
}

/// The value of an attribute, as it stands between the quotes.
pub open spec fn attr_value_text(value: AttrValueModel, scope: Seq<Bound>) -> Rendered {
    match value {
        AttrValueModel::Static(t) => done(t),
        AttrValueModel::Slot { expr, spec } => slot_text(scope, expr, spec),
        AttrValueModel::ConditionalList(entries) => guarded_text(entries, scope, 0),
    }
}

/// One attribute: a space, the name, and the value between double quotes.
pub open spec fn attribute_text(a: AttributeModel, scope: Seq<Bound>) -> Rendered {
    then(
        done(" "@),
        then(
            done(a.name),
            then(done("=\""@), then(attr_value_text(a.value, scope), done("\""@))),
        ),
    )
}

/// The attributes from `from` on, in order.
pub open spec fn attributes_text(attrs: Seq<AttributeModel>, scope: Seq<Bound>, from: int) -> Rendered
    decreases attrs.len() - from,
{
    if from < 0 || from >= attrs.len() {
        done(Seq::empty())
    } else {
        then(attribute_text(attrs[from], scope), attributes_text(attrs, scope, from + 1))
    }
}

/// `body` between an opening and a closing fragment.
pub open spec fn wrapped(open: Seq<char>, body: Rendered, close: Seq<char>) -> Rendered {
    then(done(open), then(body, done(close)))
}

/// The nodes from `from` on, in order. A binding changes the scope of the
/// siblings after it and writes nothing.
pub open spec fn render_nodes(nodes: Seq<NodeModel>, scope: Seq<Bound>, from: int) -> Rendered
    decreases nodes, 0nat, nodes.len() - from,
{
    if from < 0 || from >= nodes.len() {
        done(Seq::empty())
    } else {
        match nodes[from] {
            NodeModel::LetBinding { pattern, value } => match lookup(scope, value) {
                None => failed(Fault::Unbound(value)),
                Some(v) => match bind(scope, pattern, v) {
                    None => failed(Fault::NoMatch(pattern)),
                    Some(inner) => render_nodes(nodes, inner, from + 1),
                },
            },
            node => then(render_node(node, scope), render_nodes(nodes, scope, from + 1)),
        }
    }
}

/// One node.
pub open spec fn render_node(node: NodeModel, scope: Seq<Bound>) -> Rendered
    decreases node, 1nat, 0nat,
{
    match node {
        NodeModel::Literal(t) => done(t),
        NodeModel::Slot { expr, spec } => slot_text(scope, expr, spec),
        NodeModel::Element { name, attributes, self_closing, children, close_name } => then(
            done("<"@),
            then(
                done(name),
                then(
                    attributes_text(attributes, scope, 0),
                    if self_closing {
                        done(" />"@)
                    } else {
                        then(
                            done(">"@),
                            then(
                                render_nodes(children, scope, 0),
                                then(done("</"@), then(done(close_name), done(">"@))),
                            ),
                        )
                    },
                ),
            ),
        ),
        NodeModel::Doctype(t) => wrapped("<!doctype "@, render_nodes(t, scope, 0), ">"@),
        NodeModel::ProcessingInstruction(t) => wrapped("<?"@, render_nodes(t, scope, 0), "?>"@),
        NodeModel::Comment(t) => wrapped("<!-- "@, render_nodes(t, scope, 0), " -->"@),
        NodeModel::CData(t) => wrapped("<![CDATA["@, render_nodes(t, scope, 0), "]]>"@),
        NodeModel::If { .. } => render_branches(node, scope, 0),
        NodeModel::Match { scrutinee, arms } => match lookup(scope, scrutinee) {
            None => failed(Fault::Unbound(scrutinee)),
            Some(v) => render_arms(node, v, scope, 0),
        },
        NodeModel::For { pattern, iterable, body } => match lookup(scope, iterable) {
            None => failed(Fault::Unbound(iterable)),
            Some(Value::List(items)) => render_items(node, items@, scope, 0),
            Some(_) => failed(Fault::NotIterable(iterable)),
        },
        NodeModel::LetBinding { .. } => done(Seq::empty()),
    }
}

/// The branches of a conditional from `from` on: the body of the first whose
/// condition holds; the else body, or nothing, where none does.
pub open spec fn render_branches(node: NodeModel, scope: Seq<Bound>, from: int) -> Rendered
    decreases node, 0nat, node->branches.len() - from,
{
    match node {
        NodeModel::If { branches, else_body } => if from < 0 || from >= branches.len() {
            match else_body {
                Some(body) => render_nodes(body, scope, 0),
                None => done(Seq::empty()),
            }
        } else {
            match truth(scope, branches[from].condition) {
                Err(f) => failed(f),
                Ok(true) => render_nodes(branches[from].body, scope, 0),
                Ok(false) => render_branches(node, scope, from + 1),
            }
        },
        _ => done(Seq::empty()),
    }
}

/// The arms of a match from `from` on: the body of the first whose pattern
/// matches `value`, under what the pattern binds. It is a fault if none does.
pub open spec fn render_arms(node: NodeModel, value: Value, scope: Seq<Bound>, from: int) -> Rendered
    decreases node, 0nat, node->arms.len() - from,
{
    match node {
        NodeModel::Match { scrutinee, arms } => if from < 0 || from >= arms.len() {
            failed(Fault::NoMatch(scrutinee))
        } else {
            match bind(scope, arms[from].pattern, value) {
                Some(inner) => render_nodes(arms[from].body, inner, 0),
                None => render_arms(node, value, scope, from + 1),
            }
        },
        _ => done(Seq::empty()),
    }
}

/// The body of a loop for each of `items` from `from` on, in order, each
/// under what the loop's pattern binds for that item.
pub open spec fn render_items(node: NodeModel, items: Seq<Value>, scope: Seq<Bound>, from: int) -> Rendered
    decreases node, 0nat, items.len() - from,
{
    match node {
        NodeModel::For { pattern, iterable, body } => if from < 0 || from >= items.len() {
            done(Seq::empty())
        } else {
            match bind(scope, pattern, items[from]) {
                None => failed(Fault::NoMatch(pattern)),
                Some(inner) => then(
                    render_nodes(body, inner, 0),
                    render_items(node, items, scope, from + 1),
                ),
            }
        },
        _ => done(Seq::empty()),
    }
}

/// Whether the result `r` of a walk, and what the sink took during it,
/// are what `expected` describes.
///
/// A walk that succeeds has written all of the text and met no fault. One
/// that reports a fault has written the text before it. One that the sink
/// stopped has written some front part of the text.
pub open spec fn accounts(
    r: Result<(), RenderError>,
    before: Seq<char>,
    after: Seq<char>,
    expected: Rendered,
    unfailing: bool,
) -> bool {
    match r {
        Ok(()) => expected.fault is None && after == before + expected.text,
        Err(e) => match e.fault() {
            Some(f) => expected.fault == Some(f) && after == before + expected.text,
            None => !unfailing && before.is_prefix_of(after) && after.is_prefix_of(
                before + expected.text,
            ),
        },
    }
}

/// A walk that fails within `a` fails in the same way within `a` then `b`.
proof fn lemma_fails_first(
    r: Result<(), RenderError>,
    before: Seq<char>,
    after: Seq<char>,
    a: Rendered,
    b: Rendered,
    unfailing: bool,
)
    requires
        r is Err,
        accounts(r, before, after, a, unfailing),
    ensures
        accounts(r, before, after, then(a, b), unfailing),
{
    if r->Err_0.fault() is None && a.fault is None {
        assert((before + a.text).is_prefix_of(before + (a.text + b.text)));
    }
}

/// Once `a` has been written in full, whatever holds of the walk of `b`
/// holds of the walk of `a` then `b`.
proof fn lemma_follows(
    r: Result<(), RenderError>,
    before: Seq<char>,
    mid: Seq<char>,
    after: Seq<char>,
    a: Rendered,
    b: Rendered,
    unfailing: bool,
)
    requires
        a.fault is None,
        mid == before + a.text,
        accounts(r, mid, after, b, unfailing),
    ensures
        accounts(r, before, after, then(a, b), unfailing),
{
    assert(before + (a.text + b.text) == (before + a.text) + b.text);
    assert(before.is_prefix_of(before + a.text));
}

/// A walk that has written `sofar` and then fails within `x` fails in the
/// same way within `sofar`, `x` and whatever was to follow.
proof fn lemma_stops(
    r: Result<(), RenderError>,
    start: Seq<char>,
    sofar: Seq<char>,
    after: Seq<char>,
    x: Rendered,
    rest: Rendered,
    unfailing: bool,
)
    requires
        r is Err,
        accounts(r, start + sofar, after, x, unfailing),
    ensures
        accounts(r, start, after, then(done(sofar), then(x, rest)), unfailing),
{
    lemma_fails_first(r, start + sofar, after, x, rest, unfailing);
    lemma_follows(r, start, start + sofar, after, done(sofar), then(x, rest), unfailing);
}

/// Writing `x` in full after `sofar` leaves `sofar` and the text of `x`
/// written, and the rest to do.
proof fn lemma_advances(sofar: Seq<char>, x: Rendered, rest: Rendered)
    requires
        x.fault is None,
    ensures
        then(done(sofar), then(x, rest)) == then(done(sofar + x.text), rest),
{
    assert(sofar + (x.text + rest.text) == (sofar + x.text) + rest.text);
}

/// Writes one fragment.
fn emit<S: Sink>(sink: &mut S, text: &str) -> (r: Result<(), RenderError>)
    ensures
        accounts(
            r,
            old(sink).written(),
            final(sink).written(),
            done(text@),
            old(sink).unfailing(),
        ),
        final(sink).unfailing() == old(sink).unfailing(),
{
    match sink.write(text) {
        Ok(()) => Ok(()),
        Err(_) => Err(RenderError::Write),
    }
}

fn as_text(s: &Option<String>) -> (r: Option<&str>)
    ensures
        crate::format::opt_view(r) == crate::tree::opt_text(*s),
{
    match s {
        Some(t) => Some(t.as_str()),
        None => None,
    }
}

/// Evaluates a slot and writes its text.
fn render_slot<'a, S: Sink>(
    expr: &'a String,
    spec: &'a Option<String>,
    scope: &Vec<Entry<'a>>,
    sink: &mut S,
) -> (r: Result<(), RenderError>)
    ensures
        accounts(
            r,
            old(sink).written(),
            final(sink).written(),
            slot_text(scope_of(scope@), expr@, crate::tree::opt_text(*spec)),
            old(sink).unfailing(),
        ),
        final(sink).unfailing() == old(sink).unfailing(),
{
    match resolve(scope, expr) {
        None => Err(RenderError::Unbound(expr.clone())),
        Some(v) => match format_value(v, as_text(spec)) {
            Ok(t) => emit(sink, t.as_str()),
            Err(e) => Err(RenderError::Format(expr.clone(), e)),
        },
    }
}

/// Evaluates a condition.
fn truth_of<'a>(condition: &'a String, scope: &Vec<Entry<'a>>) -> (r: Result<bool, RenderError>)
    ensures
        match r {
            Ok(b) => truth(scope_of(scope@), condition@) == Ok::<bool, Fault>(b),
            Err(e) => e.fault() is Some && truth(scope_of(scope@), condition@) == Err::<
                bool,
                Fault,
            >(e.fault()->0),
        },
{
    match resolve(scope, condition) {
        None => Err(RenderError::Unbound(condition.clone())),
        Some(Value::Bool(b)) => Ok(*b),
        Some(_) => Err(RenderError::NotBoolean(condition.clone())),
    }
}

/// Nothing written yet, all to do.
proof fn lemma_begins(whole: Rendered)
    ensures
        whole == then(done(Seq::empty()), whole),
{
    assert(Seq::<char>::empty() + whole.text == whole.text);
}

/// All written, nothing left to do.
proof fn lemma_ends(start: Seq<char>, sofar: Seq<char>)
    ensures
        accounts(Ok(()), start, start + sofar, then(done(sofar), done(Seq::empty())), true),
        accounts(Ok(()), start, start + sofar, then(done(sofar), done(Seq::empty())), false),
{
    assert(sofar + Seq::<char>::empty() == sofar);
}

/// Writes one fragment in the course of a walk that has written `sofar`
/// since `start` and has `rest` to do after the fragment.
fn put<S: Sink>(
    sink: &mut S,
    text: &str,
    Ghost(start): Ghost<Seq<char>>,
    Ghost(sofar): Ghost<Seq<char>>,
    Ghost(rest): Ghost<Rendered>,
) -> (r: Result<(), RenderError>)
    requires
        old(sink).written() == start + sofar,
    ensures
        final(sink).unfailing() == old(sink).unfailing(),
        r is Ok ==> final(sink).written() == start + (sofar + text@),
        r is Err ==> accounts(
            r,
            start,
            final(sink).written(),
            then(done(sofar), then(done(text@), rest)),
            old(sink).unfailing(),
        ),
        then(done(sofar), then(done(text@), rest)) == then(done(sofar + text@), rest),
{
    let r = emit(sink, text);
    proof {
        lemma_advances(sofar, done(text@), rest);
        if r is Err {
            lemma_stops(r, start, sofar, sink.written(), done(text@), rest, old(sink).unfailing());
        } else {
            assert(start + sofar + text@ == start + (sofar + text@));
        }
    }
    r
}

/// Writes the entries of a conditional list whose conditions hold.
#[verifier::loop_isolation(false)]
fn render_guarded<'a, S: Sink>(
    entries: &'a Vec<Guarded>,
    scope: &Vec<Entry<'a>>,
    sink: &mut S,
) -> (r: Result<(), RenderError>)
    ensures
        accounts(
            r,
            old(sink).written(),
            final(sink).written(),
            guarded_text(guardeds_model(entries@), scope_of(scope@), 0),
            old(sink).unfailing(),
        ),
        final(sink).unfailing() == old(sink).unfailing(),
{
    let ghost model = guardeds_model(entries@);
    let ghost bounds = scope_of(scope@);
    let ghost start = sink.written();
    let ghost unfailing = sink.unfailing();
    let ghost mut sofar: Seq<char> = Seq::empty();
    let mut i: usize = 0;
    proof {
        lemma_begins(guarded_text(model, bounds, 0));
        assert(start + sofar == start);
    }
    while i < entries.len()
        invariant
            i <= entries.len(),
            sink.unfailing() == unfailing,
            sink.written() == start + sofar,
            guarded_text(model, bounds, 0) == then(
                done(sofar),
                guarded_text(model, bounds, i as int),
            ),
        decreases entries.len() - i,
    {
        let ghost rest = guarded_text(model, bounds, i + 1);
        match truth_of(&entries[i].condition, scope) {
            Err(e) => {
                proof {
                    lemma_stops(Err(e), start, sofar, sink.written(), failed(e.fault()->0), rest, unfailing);
                }
                return Err(e);
            },
            Ok(false) => {},
            Ok(true) => {
                let r = put(sink, entries[i].literal.as_str(), Ghost(start), Ghost(sofar), Ghost(then(done(" "@), rest)));
                if r.is_err() {
                    return r;
                }
                proof {
                    sofar = sofar + model[i as int].literal;
                }
                let r = put(sink, " ", Ghost(start), Ghost(sofar), Ghost(rest));
                if r.is_err() {
                    return r;
                }
                proof {
                    sofar = sofar + " "@;
                }
            },
        }
        i += 1;
    }
    proof {
        lemma_ends(start, sofar);
    }
    Ok(())
}

/// Writes one attribute.
fn render_attribute<'a, S: Sink>(
    a: &'a Attribute,
    scope: &Vec<Entry<'a>>,
    sink: &mut S,
) -> (r: Result<(), RenderError>)
    ensures
        accounts(
            r,
            old(sink).written(),
            final(sink).written(),
            attribute_text(attribute_model(*a), scope_of(scope@)),
            old(sink).unfailing(),
        ),
        final(sink).unfailing() == old(sink).unfailing(),
{
    let ghost bounds = scope_of(scope@);
    let ghost start = sink.written();
    let ghost unfailing = sink.unfailing();
    let ghost value = attr_value_text(attr_value_model(a.value), bounds);
    let ghost whole = attribute_text(attribute_model(*a), bounds);
    let ghost mut sofar: Seq<char> = Seq::empty();
    proof {
        lemma_begins(whole);
        assert(start + sofar == start);
    }
    let r = put(sink, " ", Ghost(start), Ghost(sofar), Ghost(then(done(a.name@), then(done("=\""@), then(value, done("\""@))))));
    if r.is_err() {
        return r;
    }
    proof {
        sofar = sofar + " "@;
    }
    let r = put(sink, a.name.as_str(), Ghost(start), Ghost(sofar), Ghost(then(done("=\""@), then(value, done("\""@)))));
    if r.is_err() {
        return r;
    }
    proof {
        sofar = sofar + a.name@;
    }
    let r = put(sink, "=\"", Ghost(start), Ghost(sofar), Ghost(then(value, done("\""@))));
    if r.is_err() {
        return r;
    }
    proof {
        sofar = sofar + "=\""@;
    }
    let r = match &a.value {
        AttrValue::Static(t) => emit(sink, t.as_str()),
        AttrValue::Slot { expr, spec } => render_slot(expr, spec, scope, sink),
        AttrValue::ConditionalList(entries) => render_guarded(entries, scope, sink),
    };
    if r.is_err() {
        proof {
            lemma_stops(r, start, sofar, sink.written(), value, done("\""@), unfailing);
        }
        return r;
    }
    proof {
        lemma_advances(sofar, value, done("\""@));
        assert(start + sofar + value.text == start + (sofar + value.text));
        sofar = sofar + value.text;
    }
    let r = put(sink, "\"", Ghost(start), Ghost(sofar), Ghost(done(Seq::empty())));
    if r.is_err() {
        proof {
            assert(then(done("\""@), done(Seq::empty())) == done("\""@)) by {
                assert("\""@ + Seq::<char>::empty() == "\""@);
            }
        }
        return r;
    }
    proof {
        assert(then(done("\""@), done(Seq::empty())) == done("\""@)) by {
            assert("\""@ + Seq::<char>::empty() == "\""@);
        }
        sofar = sofar + "\""@;
        lemma_ends(start, sofar);
        assert(then(done(sofar), done(Seq::empty())) == whole);
    }
    Ok(())
}

/// A walk that has written `sofar` and then meets the fault `f`.
proof fn lemma_faults(e: RenderError, start: Seq<char>, sofar: Seq<char>, f: Fault, rest: Rendered)
    requires
        e.fault() == Some(f),
    ensures
        accounts(Err(e), start, start + sofar, then(done(sofar), failed(f)), true),
        accounts(Err(e), start, start + sofar, then(done(sofar), failed(f)), false),
        accounts(Err(e), start, start + sofar, then(done(sofar), then(failed(f), rest)), true),
        accounts(Err(e), start, start + sofar, then(done(sofar), then(failed(f), rest)), false),
{
    assert(sofar + Seq::<char>::empty() == sofar);
}

/// Writes the attributes of a tag, in order.
#[verifier::loop_isolation(false)]
fn render_attributes<'a, S: Sink>(
    attrs: &'a Vec<Attribute>,
    scope: &Vec<Entry<'a>>,
    sink: &mut S,
) -> (r: Result<(), RenderError>)
    ensures
        accounts(
            r,
            old(sink).written(),
            final(sink).written(),
            attributes_text(attributes_model(attrs@), scope_of(scope@), 0),
            old(sink).unfailing(),
        ),
        final(sink).unfailing() == old(sink).unfailing(),
{
    let ghost model = attributes_model(attrs@);
    let ghost bounds = scope_of(scope@);
    let ghost start = sink.written();
    let ghost unfailing = sink.unfailing();
    let ghost mut sofar: Seq<char> = Seq::empty();
    let mut i: usize = 0;
    proof {
        lemma_begins(attributes_text(model, bounds, 0));
        assert(start + sofar == start);
    }
    while i < attrs.len()
        invariant
            i <= attrs.len(),
            sink.unfailing() == unfailing,
            sink.written() == start + sofar,
            attributes_text(model, bounds, 0) == then(
                done(sofar),
                attributes_text(model, bounds, i as int),
            ),
        decreases attrs.len() - i,
    {
        let ghost rest = attributes_text(model, bounds, i + 1);
        let ghost one = attribute_text(model[i as int], bounds);
        let r = render_attribute(&attrs[i], scope, sink);
        if r.is_err() {
            proof {
                lemma_stops(r, start, sofar, sink.written(), one, rest, unfailing);
            }
            return r;
        }
        proof {
            lemma_advances(sofar, one, rest);
            assert(start + sofar + one.text == start + (sofar + one.text));
            sofar = sofar + one.text;
        }
        i += 1;
    }
    proof {
        lemma_ends(start, sofar);
    }
    Ok(())
}

/// Renders the nodes of a body, in order, and leaves the scope as it was.
#[verifier::loop_isolation(false)]
fn render_nodes_in<'a, S: Sink>(
    nodes: &'a Vec<Node>,
    scope: &mut Vec<Entry<'a>>,
    sink: &mut S,
) -> (r: Result<(), RenderError>)
    ensures
        accounts(
            r,
            old(sink).written(),
            final(sink).written(),
            render_nodes(nodes_model(nodes@), scope_of(old(scope)@), 0),
            old(sink).unfailing(),
        ),
        final(sink).unfailing() == old(sink).unfailing(),
        r is Ok ==> final(scope)@ == old(scope)@,
    decreases nodes, 0nat,
{
    let ghost model = nodes_model(nodes@);
    let ghost start = sink.written();
    let ghost unfailing = sink.unfailing();
    let ghost whole = render_nodes(model, scope_of(scope@), 0);
    let ghost mut sofar: Seq<char> = Seq::empty();
    let base: usize = scope.len();
    let mut i: usize = 0;
    proof {
        lemma_begins(whole);
        assert(start + sofar == start);
        assert(scope@.take(base as int) == scope@);
    }
    while i < nodes.len()
        invariant
            i <= nodes.len(),
            base <= scope.len(),
            scope@.take(base as int) == old(scope)@,
            sink.unfailing() == unfailing,
            sink.written() == start + sofar,
            whole == then(done(sofar), render_nodes(model, scope_of(scope@), i as int)),
        decreases nodes.len() - i,
    {
        let ghost bounds = scope_of(scope@);
        let ghost rest = render_nodes(model, bounds, i + 1);
        let ghost entries = scope@;
        match &nodes[i] {
            Node::LetBinding { pattern, value } => {
                match resolve(scope, value) {
                    None => {
                        let e = RenderError::Unbound(value.clone());
                        proof {
                            lemma_faults(e, start, sofar, Fault::Unbound(value@), rest);
                        }
                        return Err(e);
                    },
                    Some(v) => {
                        if !bind_in(scope, pattern, v) {
                            let e = RenderError::NoMatch(pattern.clone());
                            proof {
                                lemma_faults(e, start, sofar, Fault::NoMatch(pattern@), rest);
                            }
                            return Err(e);
                        }
                        assert(scope@.take(base as int) == entries.take(base as int));
                    },
                }
            },
            node => {
                let ghost one = render_node(model[i as int], bounds);
                let r = render_node_in(node, scope, sink);
                if r.is_err() {
                    proof {
                        lemma_stops(r, start, sofar, sink.written(), one, rest, unfailing);
                    }
                    return r;
                }
                proof {
                    lemma_advances(sofar, one, rest);
                    assert(start + sofar + one.text == start + (sofar + one.text));
                    sofar = sofar + one.text;
                }
            },
        }
        i += 1;
    }
    scope.truncate(base);
    proof {
        lemma_ends(start, sofar);
    }
    Ok(())
}

/// Renders one node, and leaves the scope as it was.
fn render_node_in<'a, S: Sink>(
    node: &'a Node,
    scope: &mut Vec<Entry<'a>>,
    sink: &mut S,
) -> (r: Result<(), RenderError>)
    ensures
        accounts(
            r,
            old(sink).written(),
            final(sink).written(),
            render_node(node_model(*node), scope_of(old(scope)@)),
            old(sink).unfailing(),
        ),
        final(sink).unfailing() == old(sink).unfailing(),
        r is Ok ==> final(scope)@ == old(scope)@,
    decreases node, 1nat,
{
    match node {
        Node::Literal(t) => emit(sink, t.as_str()),
        Node::Slot { expr, spec } => render_slot(expr, spec, scope, sink),
        Node::Element { .. } => render_element(node, scope, sink),
        Node::Doctype(t) => render_wrapped("<!doctype ", t, ">", scope, sink),
        Node::ProcessingInstruction(t) => render_wrapped("<?", t, "?>", scope, sink),
        Node::Comment(t) => render_wrapped("<!-- ", t, " -->", scope, sink),
        Node::CData(t) => render_wrapped("<![CDATA[", t, "]]>", scope, sink),
        Node::If { .. } => render_if(node, scope, sink),
        Node::Match { .. } => render_match(node, scope, sink),
        Node::For { .. } => render_for(node, scope, sink),
        Node::LetBinding { .. } => {
            assert(sink.written() + Seq::<char>::empty() == sink.written());
            Ok(())
        },
    }
}

/// Renders a body between two fixed fragments.
fn render_wrapped<'a, S: Sink>(
    open: &str,
    body: &'a Vec<Node>,
    close: &str,
    scope: &mut Vec<Entry<'a>>,
    sink: &mut S,
) -> (r: Result<(), RenderError>)
    ensures
        accounts(
            r,
            old(sink).written(),
            final(sink).written(),
            wrapped(open@, render_nodes(nodes_model(body@), scope_of(old(scope)@), 0), close@),
            old(sink).unfailing(),
        ),
        final(sink).unfailing() == old(sink).unfailing(),
        r is Ok ==> final(scope)@ == old(scope)@,
    decreases body, 1nat,
{
    let ghost start = sink.written();
    let ghost unfailing = sink.unfailing();
    let ghost inner = render_nodes(nodes_model(body@), scope_of(scope@), 0);
    let ghost mut sofar: Seq<char> = Seq::empty();
    proof {
        lemma_begins(wrapped(open@, inner, close@));
        assert(start + sofar == start);
    }
    let r = put(sink, open, Ghost(start), Ghost(sofar), Ghost(then(inner, done(close@))));
    if r.is_err() {
        return r;
    }
    proof {
        sofar = sofar + open@;
    }
    let r = render_nodes_in(body, scope, sink);
    if r.is_err() {
        proof {
            lemma_stops(r, start, sofar, sink.written(), inner, done(close@), unfailing);
        }
        return r;
    }
    proof {
        lemma_advances(sofar, inner, done(close@));
        assert(start + sofar + inner.text == start + (sofar + inner.text));
        sofar = sofar + inner.text;
    }
    finish(sink, close, Ghost(start), Ghost(sofar))
}

/// Writes the last fragment of a walk that has written `sofar` since `start`.
fn finish<S: Sink>(
    sink: &mut S,
    text: &str,
    Ghost(start): Ghost<Seq<char>>,
    Ghost(sofar): Ghost<Seq<char>>,
) -> (r: Result<(), RenderError>)
    requires
        old(sink).written() == start + sofar,
    ensures
        final(sink).unfailing() == old(sink).unfailing(),
        accounts(
            r,
            start,
            final(sink).written(),
            then(done(sofar), done(text@)),
            old(sink).unfailing(),
        ),
{
    let r = emit(sink, text);
    proof {
        lemma_follows(r, start, start + sofar, sink.written(), done(sofar), done(text@), old(sink).unfailing());
    }
    r
}

/// Renders a tag: its name and attributes, then ` />` where it closes
/// itself, else its children and its closing tag.
fn render_element<'a, S: Sink>(
    node: &'a Node,
    scope: &mut Vec<Entry<'a>>,
    sink: &mut S,
) -> (r: Result<(), RenderError>)
    requires
        node is Element,
    ensures
        accounts(
            r,
            old(sink).written(),
            final(sink).written(),
            render_node(node_model(*node), scope_of(old(scope)@)),
            old(sink).unfailing(),
        ),
        final(sink).unfailing() == old(sink).unfailing(),
        r is Ok ==> final(scope)@ == old(scope)@,
    decreases node, 0nat,
{
    match node {
        Node::Element { name, attributes, self_closing, children, close_name } => {
            let ghost bounds = scope_of(scope@);
            let ghost start = sink.written();
            let ghost unfailing = sink.unfailing();
            let ghost attrs = attributes_text(attributes_model(attributes@), bounds, 0);
            let ghost inner = render_nodes(nodes_model(children@), bounds, 0);
            let ghost closing = then(done("</"@), then(done(close_name@), done(">"@)));
            let ghost tail = if *self_closing {
                done(" />"@)
            } else {
                then(done(">"@), then(inner, closing))
            };
            let ghost whole = render_node(node_model(*node), bounds);
            let ghost mut sofar: Seq<char> = Seq::empty();
            proof {
                lemma_begins(whole);
                assert(start + sofar == start);
            }
            let r = put(sink, "<", Ghost(start), Ghost(sofar), Ghost(then(done(name@), then(attrs, tail))));
            if r.is_err() {
                return r;
            }
            proof {
                sofar = sofar + "<"@;
            }
            let r = put(sink, name.as_str(), Ghost(start), Ghost(sofar), Ghost(then(attrs, tail)));
            if r.is_err() {
                return r;
            }
            proof {
                sofar = sofar + name@;
            }
            let r = render_attributes(attributes, scope, sink);
            if r.is_err() {
                proof {
                    lemma_stops(r, start, sofar, sink.written(), attrs, tail, unfailing);
                }
                return r;
            }
            proof {
                lemma_advances(sofar, attrs, tail);
                assert(start + sofar + attrs.text == start + (sofar + attrs.text));
                sofar = sofar + attrs.text;
            }
            if *self_closing {
                return finish(sink, " />", Ghost(start), Ghost(sofar));
            }
            let r = put(sink, ">", Ghost(start), Ghost(sofar), Ghost(then(inner, closing)));
            if r.is_err() {
                return r;
            }
            proof {
                sofar = sofar + ">"@;
            }
            let r = render_nodes_in(children, scope, sink);
            if r.is_err() {
                proof {
                    lemma_stops(r, start, sofar, sink.written(), inner, closing, unfailing);
                }
                return r;
            }
            proof {
                lemma_advances(sofar, inner, closing);
                assert(start + sofar + inner.text == start + (sofar + inner.text));
                sofar = sofar + inner.text;
            }
            let r = put(sink, "</", Ghost(start), Ghost(sofar), Ghost(then(done(close_name@), done(">"@))));
            if r.is_err() {
                return r;
            }
            proof {
                sofar = sofar + "</"@;
            }
            let r = put(sink, close_name.as_str(), Ghost(start), Ghost(sofar), Ghost(done(">"@)));
            if r.is_err() {
                return r;
            }
            proof {
                sofar = sofar + close_name@;
            }
            finish(sink, ">", Ghost(start), Ghost(sofar))
        },
        _ => Ok(()),
    }
}

/// Renders the body of the first branch whose condition holds, or the else
/// body where none does.
#[verifier::loop_isolation(false)]
fn render_if<'a, S: Sink>(
    node: &'a Node,
    scope: &mut Vec<Entry<'a>>,
    sink: &mut S,
) -> (r: Result<(), RenderError>)
    requires
        node is If,
    ensures
        accounts(
            r,
            old(sink).written(),
            final(sink).written(),
            render_node(node_model(*node), scope_of(old(scope)@)),
            old(sink).unfailing(),
        ),
        final(sink).unfailing() == old(sink).unfailing(),
        r is Ok ==> final(scope)@ == old(scope)@,
    decreases node, 0nat,
{
    match node {
        Node::If { branches, else_body } => {
            let ghost model = node_model(*node);
            let ghost bounds = scope_of(scope@);
            let ghost start = sink.written();
            let ghost unfailing = sink.unfailing();
            proof {
                assert(start + Seq::<char>::empty() == start);
            }
            let mut i: usize = 0;
            while i < branches.len()
                invariant
                    i <= branches.len(),
                    scope@ == old(scope)@,
                    sink.written() == start,
                    sink.unfailing() == unfailing,
                    render_branches(model, bounds, 0) == render_branches(model, bounds, i as int),
                decreases branches.len() - i,
            {
                match truth_of(&branches[i].condition, scope) {
                    Err(e) => {
                        return Err(e);
                    },
                    Ok(true) => {
                        return render_nodes_in(&branches[i].body, scope, sink);
                    },
                    Ok(false) => {},
                }
                i += 1;
            }
            match else_body {
                Some(body) => render_nodes_in(body, scope, sink),
                None => Ok(()),
            }
        },
        _ => Ok(()),
    }
}

/// Renders the body of the first arm whose pattern matches the scrutinee.
#[verifier::loop_isolation(false)]
fn render_match<'a, S: Sink>(
    node: &'a Node,
    scope: &mut Vec<Entry<'a>>,
    sink: &mut S,
) -> (r: Result<(), RenderError>)
    requires
        node is Match,
    ensures
        accounts(
            r,
            old(sink).written(),
            final(sink).written(),
            render_node(node_model(*node), scope_of(old(scope)@)),
            old(sink).unfailing(),
        ),
        final(sink).unfailing() == old(sink).unfailing(),
        r is Ok ==> final(scope)@ == old(scope)@,
    decreases node, 0nat,
{
    match node {
        Node::Match { scrutinee, arms } => {
            let ghost model = node_model(*node);
            let ghost bounds = scope_of(scope@);
            let ghost start = sink.written();
            let ghost unfailing = sink.unfailing();
            proof {
                assert(start + Seq::<char>::empty() == start);
            }
            match resolve(scope, scrutinee) {
                None => Err(RenderError::Unbound(scrutinee.clone())),
                Some(v) => {
                    let base: usize = scope.len();
                    let mut i: usize = 0;
                    while i < arms.len()
                        invariant
                            i <= arms.len(),
                            scope@ == old(scope)@,
                            sink.written() == start,
                            sink.unfailing() == unfailing,
                            render_arms(model, *v, bounds, 0) == render_arms(
                                model,
                                *v,
                                bounds,
                                i as int,
                            ),
                        decreases arms.len() - i,
                    {
                        if bind_in(scope, &arms[i].pattern, v) {
                            let r = render_nodes_in(&arms[i].body, scope, sink);
                            if r.is_ok() {
                                scope.truncate(base);
                            }
                            return r;
                        }
                        i += 1;
                    }
                    Err(RenderError::NoMatch(scrutinee.clone()))
                },
            }
        },
        _ => Ok(()),
    }
}

/// Renders the body of a loop once for each item of its iterable.
#[verifier::loop_isolation(false)]
fn render_for<'a, S: Sink>(
    node: &'a Node,
    scope: &mut Vec<Entry<'a>>,
    sink: &mut S,
) -> (r: Result<(), RenderError>)
    requires
        node is For,
    ensures
        accounts(
            r,
            old(sink).written(),
            final(sink).written(),
            render_node(node_model(*node), scope_of(old(scope)@)),
            old(sink).unfailing(),
        ),
        final(sink).unfailing() == old(sink).unfailing(),
        r is Ok ==> final(scope)@ == old(scope)@,
    decreases node, 0nat,
{
    match node {
        Node::For { pattern, iterable, body } => {
            let ghost model = node_model(*node);
            let ghost bounds = scope_of(scope@);
            let ghost start = sink.written();
            let ghost unfailing = sink.unfailing();
            proof {
                assert(start + Seq::<char>::empty() == start);
            }
            match resolve(scope, iterable) {
                None => Err(RenderError::Unbound(iterable.clone())),
                Some(Value::List(items)) => {
                    let ghost whole = render_items(model, items@, bounds, 0);
                    let ghost mut sofar: Seq<char> = Seq::empty();
                    let base: usize = scope.len();
                    let mut i: usize = 0;
                    proof {
                        lemma_begins(whole);
                    }
                    while i < items.len()
                        invariant
                            i <= items.len(),
                            scope@ == old(scope)@,
                            sink.written() == start + sofar,
                            sink.unfailing() == unfailing,
                            whole == then(
                                done(sofar),
                                render_items(model, items@, bounds, i as int),
                            ),
                        decreases items.len() - i,
                    {
                        let ghost rest = render_items(model, items@, bounds, i + 1);
                        if !bind_in(scope, pattern, &items[i]) {
                            let e = RenderError::NoMatch(pattern.clone());
                            proof {
                                lemma_faults(e, start, sofar, Fault::NoMatch(pattern@), rest);
                            }
                            return Err(e);
                        }
                        let ghost one = render_nodes(nodes_model(body@), scope_of(scope@), 0);
                        let r = render_nodes_in(body, scope, sink);
                        if r.is_err() {
                            proof {
                                lemma_stops(r, start, sofar, sink.written(), one, rest, unfailing);
                            }
                            return r;
                        }
                        scope.truncate(base);
                        proof {
                            lemma_advances(sofar, one, rest);
                            assert(start + sofar + one.text == start + (sofar + one.text));
                            sofar = sofar + one.text;
                        }
                        i += 1;
                    }
                    proof {
                        lemma_ends(start, sofar);
                    }
                    Ok(())
                },
                Some(_) => Err(RenderError::NotIterable(iterable.clone())),
            }
        },
        _ => Ok(()),
    }
}

/// What a tree renders to under a scope.
pub open spec fn rendered(nodes: Seq<NodeModel>, scope: Seq<Bound>) -> Rendered {
    render_nodes(nodes, scope, 0)
}

/// Renders a tree against a context, writing to `sink` as it goes.
///
/// On success the sink has taken the whole text. On a fault it has taken the
/// text before the fault, and the error says which fault it was. Where the
/// sink refuses a fragment the error is `Write`, and the sink has taken some
/// front part of the text; a sink that takes everything never gives `Write`.
pub fn render<S: Sink>(nodes: &Vec<Node>, context: &Context, sink: &mut S) -> (r: Result<
    (),
    RenderError,
>)
    ensures
        accounts(
            r,
            old(sink).written(),
            final(sink).written(),
            rendered(nodes_model(nodes@), context@),
            old(sink).unfailing(),
        ),
        final(sink).unfailing() == old(sink).unfailing(),
{
    let mut scope: Vec<Entry> = Vec::new();
    crate::value::extend(&mut scope, &context.bindings);
    assert(scope_of(scope@) == context@);
    render_nodes_in(nodes, &mut scope, sink)
}

/// Renders a tree against a context into a new string. A fault gives the
/// error that reports it, and the text before it is dropped.
pub fn render_to_string(nodes: &Vec<Node>, context: &Context) -> (r: Result<String, RenderError>)
    ensures
        match r {
            Ok(text) => rendered(nodes_model(nodes@), context@) == done(text@),
            Err(e) => e.fault() is Some && rendered(nodes_model(nodes@), context@).fault
                == e.fault(),
        },
{
    let mut out = String::new();
    assert(out@ + rendered(nodes_model(nodes@), context@).text == rendered(
        nodes_model(nodes@),
        context@,
    ).text);
    match render(nodes, context, &mut out) {
        Ok(()) => Ok(out),
        Err(e) => Err(e),
    }
}

} // verus!
