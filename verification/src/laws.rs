//! What holds of every template, tree, scope and value: laws of the parser
//! and of the renderer, proved from the definitions that the contracts are
//! stated in.

use vstd::prelude::*;
use crate::format::formatted;
use crate::lexer::{
    angle_step, arm_step, body_step, common_step, find, for_step, let_step, lex_from, lexed,
    slot_step, step, string_end, tag_step, word_end, word_step, LexState, Step, Stop,
};
use crate::text::lead;
use crate::render::{
    attributes_text, done, guarded_text, render_items, render_node, render_nodes, rendered,
    slot_text, then, truth,
};
use crate::parser::{parse_attrs, parse_node, parse_nodes, parsed};
use crate::token::{mark, text, Class, KindModel, Mark, TokenModel};
use crate::tree::{AttributeModel, BranchModel, GuardedModel, NodeModel};
use crate::value::{bind, lookup, Bound, Value};

verus! {

/// Literal text is written as it is: no character of it is escaped, dropped
/// or added, whatever it holds.
pub proof fn law_literal_verbatim(text: Seq<char>, scope: Seq<Bound>)
    ensures
        render_node(NodeModel::Literal(text), scope) == done(text),
        rendered(seq![NodeModel::Literal(text)], scope) == done(text),
{
    assert(render_nodes(seq![NodeModel::Literal(text)], scope, 1) == done(Seq::empty()));
    assert(text + Seq::<char>::empty() == text);
}

/// A slot without a specifier whose expression is bound to a text writes
/// that text as it is.
pub proof fn law_text_value_verbatim(expr: Seq<char>, text: String, scope: Seq<Bound>)
    requires
        lookup(scope, expr) == Some(Value::Text(text)),
    ensures
        formatted(Value::Text(text), None) == Ok::<Seq<char>, crate::format::FormatError>(text@),
        slot_text(scope, expr, None) == done(text@),
        render_node(NodeModel::Slot { expr, spec: None }, scope) == done(text@),
{
}

/// A slot hands its value and its specifier to the format dispatcher as
/// they are, and writes what the dispatcher gives; without a specifier that
/// is the value's default representation.
pub proof fn law_specifier_forwarded(
    expr: Seq<char>,
    spec: Option<Seq<char>>,
    value: Value,
    scope: Seq<Bound>,
)
    requires
        lookup(scope, expr) == Some(value),
    ensures
        render_node(NodeModel::Slot { expr, spec }, scope) == match formatted(value, spec) {
            Ok(t) => done(t),
            Err(e) => crate::render::failed(crate::render::Fault::Format(expr, e)),
        },
        formatted(value, None) == crate::format::apply(value, crate::format::plain()),
{
}

/// A conditional renders the body of its first branch whose condition
/// holds, and nothing of any other branch or of the else body.
pub proof fn law_first_true_branch(
    branches: Seq<BranchModel>,
    else_body: Option<Seq<NodeModel>>,
    scope: Seq<Bound>,
    k: int,
)
    requires
        0 <= k < branches.len(),
        forall|j: int| 0 <= j < k ==> truth(scope, #[trigger] branches[j].condition) == Ok::<bool, crate::render::Fault>(false),
        truth(scope, branches[k].condition) == Ok::<bool, crate::render::Fault>(true),
    ensures
        render_node(NodeModel::If { branches, else_body }, scope) == rendered(
            branches[k].body,
            scope,
        ),
{
    lemma_branches_skip(NodeModel::If { branches, else_body }, scope, 0, k);
}

/// A conditional none of whose conditions holds renders its else body, and
/// nothing at all where it has none.
pub proof fn law_no_true_branch(
    branches: Seq<BranchModel>,
    else_body: Option<Seq<NodeModel>>,
    scope: Seq<Bound>,
)
    requires
        forall|j: int| 0 <= j < branches.len() ==> truth(scope, #[trigger] branches[j].condition) == Ok::<bool, crate::render::Fault>(false),
    ensures
        render_node(NodeModel::If { branches, else_body }, scope) == match else_body {
            Some(body) => rendered(body, scope),
            None => done(Seq::empty()),
        },
{
    lemma_branches_skip(NodeModel::If { branches, else_body }, scope, 0, branches.len() as int);
}

/// A conditional with two branches renders exactly one body, or none: the
/// first body where the first condition holds, else the second where the
/// second holds, else the else body, or nothing where there is none. What
/// is skipped adds no character.
pub proof fn law_branch_exclusivity(
    c1: Seq<char>,
    b1: Seq<NodeModel>,
    c2: Seq<char>,
    b2: Seq<NodeModel>,
    else_body: Option<Seq<NodeModel>>,
    scope: Seq<Bound>,
    v1: bool,
    v2: bool,
)
    requires
        truth(scope, c1) == Ok::<bool, crate::render::Fault>(v1),
        truth(scope, c2) == Ok::<bool, crate::render::Fault>(v2),
    ensures
        render_node(
            NodeModel::If {
                branches: seq![
                    BranchModel { condition: c1, body: b1 },
                    BranchModel { condition: c2, body: b2 },
                ],
                else_body,
            },
            scope,
        ) == if v1 {
            rendered(b1, scope)
        } else if v2 {
            rendered(b2, scope)
        } else {
            match else_body {
                Some(b3) => rendered(b3, scope),
                None => done(Seq::empty()),
            }
        },
{
    let branches = seq![
        BranchModel { condition: c1, body: b1 },
        BranchModel { condition: c2, body: b2 },
    ];
    let node = NodeModel::If { branches, else_body };
    assert(branches[0].condition == c1 && branches[1].condition == c2);
    if v1 {
        law_first_true_branch(branches, else_body, scope, 0);
    } else if v2 {
        law_first_true_branch(branches, else_body, scope, 1);
    } else {
        law_no_true_branch(branches, else_body, scope);
    }
}

proof fn lemma_branches_skip(node: NodeModel, scope: Seq<Bound>, from: int, to: int)
    requires
        node is If,
        0 <= from <= to <= node->branches.len(),
        forall|j: int| from <= j < to ==> truth(scope, #[trigger] node->branches[j].condition) == Ok::<bool, crate::render::Fault>(false),
    ensures
        crate::render::render_branches(node, scope, from) == crate::render::render_branches(
            node,
            scope,
            to,
        ),
    decreases to - from,
{
    if from < to {
        lemma_branches_skip(node, scope, from + 1, to);
    }
}

/// An entry of a conditional list whose condition does not hold adds no
/// character to the value; one whose condition holds adds its literal and
/// one space, before what the later entries add.
pub proof fn law_guarded_entry(entries: Seq<GuardedModel>, scope: Seq<Bound>, i: int, holds: bool)
    requires
        0 <= i < entries.len(),
        truth(scope, entries[i].condition) == Ok::<bool, crate::render::Fault>(holds),
    ensures
        !holds ==> guarded_text(entries, scope, i) == guarded_text(entries, scope, i + 1),
        holds ==> guarded_text(entries, scope, i).text == entries[i].literal + " "@ + guarded_text(
            entries,
            scope,
            i + 1,
        ).text,
{
    let rest = guarded_text(entries, scope, i + 1);
    assert(entries[i].literal + (" "@ + rest.text) == entries[i].literal + " "@ + rest.text);
}

/// A conditional list none of whose conditions holds renders the empty value.
pub proof fn law_guarded_none(entries: Seq<GuardedModel>, scope: Seq<Bound>, from: int)
    requires
        0 <= from,
        forall|j: int| from <= j < entries.len() ==> truth(scope, #[trigger] entries[j].condition) == Ok::<bool, crate::render::Fault>(false),
    ensures
        guarded_text(entries, scope, from) == done(Seq::empty()),
    decreases entries.len() - from,
{
    if from < entries.len() {
        law_guarded_none(entries, scope, from + 1);
    }
}

/// A self-closing tag renders as its name, its attributes and ` />`,
/// whatever children and closing name the node holds.
pub proof fn law_self_closing(
    name: Seq<char>,
    attributes: Seq<AttributeModel>,
    children: Seq<NodeModel>,
    close_name: Seq<char>,
    scope: Seq<Bound>,
)
    ensures
        render_node(
            NodeModel::Element { name, attributes, self_closing: true, children, close_name },
            scope,
        ) == then(
            done("<"@),
            then(done(name), then(attributes_text(attributes, scope, 0), done(" />"@))),
        ),
{
}

/// The closing tag of an element is written with the name it was given,
/// whatever the name of the opening tag.
pub proof fn law_closing_name_kept(
    name: Seq<char>,
    close_name: Seq<char>,
    scope: Seq<Bound>,
)
    ensures
        rendered(
            seq![
                NodeModel::Element {
                    name,
                    attributes: Seq::empty(),
                    self_closing: false,
                    children: Seq::empty(),
                    close_name,
                },
            ],
            scope,
        ) == done("<"@ + name + ">"@ + "</"@ + close_name + ">"@),
{
    let node = NodeModel::Element {
        name,
        attributes: Seq::empty(),
        self_closing: false,
        children: Seq::empty(),
        close_name,
    };
    let e = Seq::<char>::empty();
    assert(render_nodes(seq![node], scope, 1) == done(e));
    assert(render_nodes(Seq::<NodeModel>::empty(), scope, 0) == done(e));
    assert(attributes_text(Seq::<AttributeModel>::empty(), scope, 0) == done(e));
    assert(render_node(node, scope).text == "<"@ + (name + (e + (">"@ + (e + ("</"@ + (close_name
        + ">"@)))))));
    assert("<"@ + (name + (e + (">"@ + (e + ("</"@ + (close_name + ">"@)))))) + e == "<"@ + name
        + ">"@ + "</"@ + close_name + ">"@);
}

/// A loop over an empty iterable renders nothing.
pub proof fn law_loop_empty(
    pattern: Seq<char>,
    iterable: Seq<char>,
    body: Seq<NodeModel>,
    items: Vec<Value>,
    scope: Seq<Bound>,
)
    requires
        lookup(scope, iterable) == Some(Value::List(items)),
        items@.len() == 0,
    ensures
        render_node(NodeModel::For { pattern, iterable, body }, scope) == done(Seq::empty()),
{
}

/// A loop renders its body for the items in iteration order: the body for
/// an item, under what the pattern binds for it, comes before the bodies for
/// the items after it.
pub proof fn law_loop_order(
    pattern: Seq<char>,
    iterable: Seq<char>,
    body: Seq<NodeModel>,
    items: Seq<Value>,
    scope: Seq<Bound>,
    i: int,
)
    requires
        0 <= i < items.len(),
        bind(scope, pattern, items[i]) is Some,
    ensures
        render_items(NodeModel::For { pattern, iterable, body }, items, scope, i) == then(
            rendered(body, bind(scope, pattern, items[i])->0),
            render_items(NodeModel::For { pattern, iterable, body }, items, scope, i + 1),
        ),
{
}

/// Whether nothing in the attributes depends on the scope.
pub open spec fn static_attributes(attrs: Seq<AttributeModel>) -> bool {
    forall|i: int| 0 <= i < attrs.len() ==> (#[trigger] attrs[i]).value is Static
}

/// Whether a node is literal text or a tag that holds nothing but static
/// attributes and such nodes.
pub open spec fn is_static(node: NodeModel) -> bool
    decreases node,
{
    match node {
        NodeModel::Literal(_) => true,
        NodeModel::Element { attributes, children, .. } => static_attributes(attributes)
            && forall|i: int| 0 <= i < children.len() ==> is_static(#[trigger] children[i]),
        _ => false,
    }
}

pub open spec fn all_static(nodes: Seq<NodeModel>) -> bool {
    forall|i: int| 0 <= i < nodes.len() ==> is_static(#[trigger] nodes[i])
}

/// The attributes from `from` on in canonical form: ` name="value"` each.
pub open spec fn canonical_attributes(attrs: Seq<AttributeModel>, from: int) -> Seq<char>
    decreases attrs.len() - from,
{
    if from < 0 || from >= attrs.len() {
        Seq::empty()
    } else {
        " "@ + attrs[from].name + "=\""@ + attrs[from].value->Static_0 + "\""@
            + canonical_attributes(attrs, from + 1)
    }
}

/// A static node in canonical form: literal text as it is, a tag as
/// `<name attr="value">`, its children and `</name>`, or as `<name
/// attr="value" />` where it closes itself.
pub open spec fn canonical(node: NodeModel) -> Seq<char>
    decreases node, 1nat, 0nat,
{
    match node {
        NodeModel::Literal(t) => t,
        NodeModel::Element { name, attributes, self_closing, children, close_name } => "<"@ + name
            + canonical_attributes(attributes, 0) + if self_closing {
            " />"@
        } else {
            ">"@ + canonical_nodes(children, 0) + "</"@ + close_name + ">"@
        },
        _ => Seq::empty(),
    }
}

/// The nodes from `from` on in canonical form, one after the other.
pub open spec fn canonical_nodes(nodes: Seq<NodeModel>, from: int) -> Seq<char>
    decreases nodes, 0nat, nodes.len() - from,
{
    if from < 0 || from >= nodes.len() {
        Seq::empty()
    } else {
        canonical(nodes[from]) + canonical_nodes(nodes, from + 1)
    }
}

proof fn lemma_static_attributes(attrs: Seq<AttributeModel>, scope: Seq<Bound>, from: int)
    requires
        static_attributes(attrs),
        0 <= from,
    ensures
        attributes_text(attrs, scope, from) == done(canonical_attributes(attrs, from)),
    decreases attrs.len() - from,
{
    if from < attrs.len() {
        lemma_static_attributes(attrs, scope, from + 1);
        let a = attrs[from];
        let v = a.value->Static_0;
        let rest = canonical_attributes(attrs, from + 1);
        assert(a.value is Static);
        assert(" "@ + (a.name + ("=\""@ + (v + "\""@))) + rest == " "@ + a.name + "=\""@ + v
            + "\""@ + rest);
    }
}

proof fn lemma_static_nodes(nodes: Seq<NodeModel>, scope: Seq<Bound>, from: int)
    requires
        all_static(nodes),
        0 <= from,
    ensures
        render_nodes(nodes, scope, from) == done(canonical_nodes(nodes, from)),
    decreases nodes, 0nat, nodes.len() - from,
{
    if from < nodes.len() {
        assert(is_static(nodes[from]));
        lemma_static_node(nodes[from], scope);
        lemma_static_nodes(nodes, scope, from + 1);
    }
}

proof fn lemma_static_node(node: NodeModel, scope: Seq<Bound>)
    requires
        is_static(node),
    ensures
        render_node(node, scope) == done(canonical(node)),
    decreases node, 1nat, 0nat,
{
    match node {
        NodeModel::Element { name, attributes, self_closing, children, close_name } => {
            lemma_static_attributes(attributes, scope, 0);
            let a = canonical_attributes(attributes, 0);
            if self_closing {
                assert("<"@ + (name + (a + " />"@)) == "<"@ + name + a + " />"@);
            } else {
                assert(all_static(children));
                lemma_static_nodes(children, scope, 0);
                let c = canonical_nodes(children, 0);
                assert("<"@ + (name + (a + (">"@ + (c + ("</"@ + (close_name + ">"@)))))) == "<"@
                    + name + a + (">"@ + c + "</"@ + close_name + ">"@));
            }
        },
        _ => {},
    }
}

/// A tree of literal text and of tags with static attributes renders to its
/// canonical form, under every scope and without a fault: the literal text
/// as it is, each tag as `<name attr="value">`, its children and its closing
/// tag.
pub proof fn law_static_tree_canonical(nodes: Seq<NodeModel>, scope: Seq<Bound>)
    requires
        all_static(nodes),
    ensures
        rendered(nodes, scope) == done(canonical_nodes(nodes, 0)),
{
    lemma_static_nodes(nodes, scope, 0);
}

/// Whether a token is one of plain markup: `<`, `>`, `/>`, `=`, a name, a
/// literal or a closing tag.
pub open spec fn is_plain(token: TokenModel) -> bool {
    match token.kind {
        KindModel::Mark(m) => m == Mark::Lt || m == Mark::Gt || m == Mark::SlashGt || m
            == Mark::Eq,
        KindModel::Text(c, _) => c == Class::Name || c == Class::Literal || c == Class::Close,
        _ => false,
    }
}

pub open spec fn all_plain(tokens: Seq<TokenModel>) -> bool {
    forall|i: int| 0 <= i < tokens.len() ==> is_plain(#[trigger] tokens[i])
}

proof fn lemma_plain_attrs(tokens: Seq<TokenModel>, i: int)
    requires
        all_plain(tokens),
    ensures
        parse_attrs(tokens, i) is Ok ==> static_attributes(parse_attrs(tokens, i)->Ok_0.0),
    decreases tokens.len() - i,
{
    if crate::parser::text_at(tokens, i, Class::Name) is Some && crate::parser::is_mark(
        tokens,
        i + 1,
        Mark::Eq,
    ) {
        match crate::parser::parse_value(tokens, i + 2) {
            Ok((value, j)) => {
                assert(is_plain(tokens[i + 2]));
                assert(value is Static);
                let one = AttributeModel {
                    name: crate::parser::text_at(tokens, i, Class::Name)->0,
                    value,
                };
                if i < j <= tokens.len() {
                    lemma_plain_attrs(tokens, j);
                    match parse_attrs(tokens, j) {
                        Ok((rest, _)) => {
                            let all = seq![one] + rest;
                            assert forall|a: int| 0 <= a < all.len() implies (
                            #[trigger] all[a]).value is Static by {
                                if a > 0 {
                                    assert(all[a] == rest[a - 1]);
                                }
                            }
                        },
                        Err(_) => {},
                    }
                } else {
                    assert(seq![one][0] == one);
                }
            },
            Err(_) => {},
        }
    }
}

proof fn lemma_plain_nodes(tokens: Seq<TokenModel>, i: int)
    requires
        all_plain(tokens),
    ensures
        parse_nodes(tokens, i) is Ok ==> all_static(parse_nodes(tokens, i)->Ok_0.0),
    decreases tokens.len() - i, 3nat,
{
    if crate::parser::starts_node(tokens, i) {
        lemma_plain_node(tokens, i);
        match parse_node(tokens, i) {
            Ok((node, j)) => {
                if i < j <= tokens.len() {
                    lemma_plain_nodes(tokens, j);
                    match parse_nodes(tokens, j) {
                        Ok((rest, _)) => {
                            let all = seq![node] + rest;
                            assert forall|a: int| 0 <= a < all.len() implies is_static(
                                #[trigger] all[a],
                            ) by {
                                if a > 0 {
                                    assert(all[a] == rest[a - 1]);
                                }
                            }
                        },
                        Err(_) => {},
                    }
                } else {
                    assert(seq![node][0] == node);
                }
            },
            Err(_) => {},
        }
    }
}

proof fn lemma_plain_node(tokens: Seq<TokenModel>, i: int)
    requires
        all_plain(tokens),
    ensures
        parse_node(tokens, i) is Ok ==> is_static(parse_node(tokens, i)->Ok_0.0),
    decreases tokens.len() - i, 2nat,
{
    if parse_node(tokens, i) is Ok {
        assert(is_plain(tokens[i]));
        match crate::parser::kind_at(tokens, i) {
            Some(KindModel::Mark(Mark::Lt)) => {
                lemma_plain_attrs(tokens, i + 2);
                match parse_attrs(tokens, i + 2) {
                    Ok((attributes, j)) => {
                        if !crate::parser::is_mark(tokens, j, Mark::SlashGt) {
                            lemma_plain_nodes(tokens, j + 1);
                        }
                    },
                    Err(_) => {},
                }
            },
            _ => {},
        }
    }
}

/// A template of plain markup and literals renders to the canonical form
/// of its tree: each literal as it is, in the order of the source, each tag
/// as `<name attr="value">` with its children and closing tag, or as `<name
/// attr="value" />`; and it does so under every scope, without a fault.
pub proof fn law_literal_template(tokens: Seq<TokenModel>, scope: Seq<Bound>)
    requires
        all_plain(tokens),
        parsed(tokens) is Ok,
    ensures
        all_static(parsed(tokens)->Ok_0),
        rendered(parsed(tokens)->Ok_0, scope) == done(canonical_nodes(parsed(tokens)->Ok_0, 0)),
{
    lemma_plain_nodes(tokens, 0);
    law_static_tree_canonical(parsed(tokens)->Ok_0, scope);
}

/// The tokens of `<open></close>` parse to one element that keeps both
/// names, whatever the two names are.
pub proof fn law_names_not_compared(open: Seq<char>, close: Seq<char>, at: Seq<int>)
    requires
        at.len() == 4,
    ensures
        parsed(
            seq![
                mark(Mark::Lt, at[0]),
                text(Class::Name, open, at[1]),
                mark(Mark::Gt, at[2]),
                text(Class::Close, close, at[3]),
            ],
        ) == Ok::<Seq<NodeModel>, crate::parser::ParseError>(
            seq![
                NodeModel::Element {
                    name: open,
                    attributes: Seq::empty(),
                    self_closing: false,
                    children: Seq::empty(),
                    close_name: close,
                },
            ],
        ),
{
    let tokens = seq![
        mark(Mark::Lt, at[0]),
        text(Class::Name, open, at[1]),
        mark(Mark::Gt, at[2]),
        text(Class::Close, close, at[3]),
    ];
    let node = NodeModel::Element {
        name: open,
        attributes: Seq::empty(),
        self_closing: false,
        children: Seq::empty(),
        close_name: close,
    };
    assert(parse_attrs(tokens, 2) == Ok::<(Seq<AttributeModel>, int), crate::parser::ParseError>(
        (Seq::empty(), 2),
    ));
    assert(parse_nodes(tokens, 3) == Ok::<(Seq<NodeModel>, int), crate::parser::ParseError>(
        (Seq::empty(), 3),
    ));
    assert(parse_node(tokens, 0) == Ok::<(NodeModel, int), crate::parser::ParseError>((node, 4)));
    assert(parse_nodes(tokens, 4) == Ok::<(Seq<NodeModel>, int), crate::parser::ParseError>(
        (Seq::empty(), 4),
    ));
    assert(seq![node] + Seq::<NodeModel>::empty() == seq![node]);
}

/// Whether every token begins within `[lo, hi]`, and none before the
/// token before it.
pub open spec fn in_order(tokens: Seq<TokenModel>, lo: int, hi: int) -> bool {
    (forall|k: int| 0 <= k < tokens.len() ==> lo <= (#[trigger] tokens[k]).at <= hi) && forall|
        a: int,
        b: int,
    |
        0 <= a <= b < tokens.len() ==> (#[trigger] tokens[a]).at <= (#[trigger] tokens[b]).at
}

proof fn lemma_lead_bounds(s: Seq<char>, from: int, to: int)
    requires
        from <= to,
    ensures
        from <= lead(s, from, to) <= to,
    decreases to - from,
{
    if from < to && 0 <= from < s.len() && crate::text::is_space(s[from]) {
        lemma_lead_bounds(s, from + 1, to);
    }
}

proof fn lemma_word_end_bounds(s: Seq<char>, i: int, numeric: bool)
    requires
        0 <= i <= s.len(),
    ensures
        i <= word_end(s, i, numeric) <= s.len(),
    decreases s.len() - i,
{
    if i < s.len() && crate::lexer::is_word_char(s[i], numeric) {
        lemma_word_end_bounds(s, i + 1, numeric);
    }
}

proof fn lemma_string_end_bounds(s: Seq<char>, i: int)
    requires
        0 <= i,
    ensures
        string_end(s, i) is Some ==> i <= string_end(s, i)->0 < s.len(),
    decreases s.len() - i,
{
    if i < s.len() && s[i] != '"' {
        if s[i] == '\\' {
            if i + 1 < s.len() {
                lemma_string_end_bounds(s, i + 2);
            }
        } else {
            lemma_string_end_bounds(s, i + 1);
        }
    }
}

proof fn lemma_find_bounds(s: Seq<char>, start: int, p: int, depth: nat, stop: Stop)
    requires
        0 <= p,
    ensures
        find(s, start, p, depth, stop) is Some ==> p <= find(s, start, p, depth, stop)->0
            < s.len() && crate::lexer::stops(s, start, find(s, start, p, depth, stop)->0, stop),
    decreases s.len() - p,
{
    if p < s.len() && !(depth == 0 && crate::lexer::stops(s, start, p, stop)) {
        if s[p] == '"' {
            match string_end(s, p + 1) {
                Some(q) => {
                    if p < q < s.len() {
                        lemma_find_bounds(s, start, q + 1, depth, stop);
                    }
                },
                None => {},
            }
        } else if crate::lexer::is_opener(s[p]) {
            lemma_find_bounds(s, start, p + 1, depth + 1, stop);
        } else if crate::lexer::is_closer(s[p]) && depth > 0 {
            lemma_find_bounds(s, start, p + 1, (depth - 1) as nat, stop);
        } else {
            lemma_find_bounds(s, start, p + 1, depth, stop);
        }
    }
}

proof fn lemma_adjacent(tokens: Seq<TokenModel>, a: int, b: int)
    requires
        0 <= a <= b < tokens.len(),
        forall|k: int| 0 <= k < tokens.len() - 1 ==> (#[trigger] tokens[k]).at <= tokens[k + 1].at,
    ensures
        tokens[a].at <= tokens[b].at,
    decreases b - a,
{
    if a < b {
        lemma_adjacent(tokens, a + 1, b);
    }
}

/// Whether what a step adds begins at or after `p`, not beyond where the
/// lexer goes on, and in order.
pub open spec fn step_in_order(step: Step, p: int, n: int) -> bool {
    step is Emit ==> in_order(step->Emit_0, p, step->Emit_1) && p <= step->Emit_1 <= n
}

proof fn lemma_emits(step: Step, p: int, n: int)
    requires
        step is Emit ==> p <= step->Emit_1 <= n && (forall|k: int|
            0 <= k < step->Emit_0.len() ==> p <= (#[trigger] step->Emit_0[k]).at <= step->Emit_1)
            && (forall|k: int|
            0 <= k < step->Emit_0.len() - 1 ==> (#[trigger] step->Emit_0[k]).at <= step->Emit_0[k
                + 1].at),
    ensures
        step_in_order(step, p, n),
{
    if step is Emit {
        let tokens = step->Emit_0;
        assert forall|a: int, b: int| 0 <= a <= b < tokens.len() implies (
        #[trigger] tokens[a]).at <= (#[trigger] tokens[b]).at by {
            lemma_adjacent(tokens, a, b);
        }
    }
}

proof fn lemma_one_in_order(token: TokenModel, next: int, st: LexState, p: int, n: int)
    requires
        p <= token.at <= next <= n,
    ensures
        step_in_order(crate::lexer::one(token, next, st), p, n),
{
    lemma_emits(crate::lexer::one(token, next, st), p, n);
}

proof fn lemma_slot_in_order(s: Seq<char>, p: int, st: LexState)
    requires
        0 <= p < s.len() <= usize::MAX,
    ensures
        step_in_order(slot_step(s, p, st), p, s.len() as int),
{
    lemma_find_bounds(s, p + 1, p + 1, 0, Stop::Either(';', '}'));
    match find(s, p + 1, p + 1, 0, Stop::Either(';', '}')) {
        Some(m) => {
            lemma_find_bounds(s, m + 1, m + 1, 0, Stop::Char('}'));
        },
        None => {},
    }
    lemma_emits(slot_step(s, p, st), p, s.len() as int);
}

proof fn lemma_common_in_order(s: Seq<char>, p: int, st: LexState)
    requires
        0 <= p < s.len() <= usize::MAX,
    ensures
        step_in_order(common_step(s, p, st), p, s.len() as int),
{
    lemma_word_end_bounds(s, p, false);
    lemma_word_end_bounds(s, p, true);
    lemma_string_end_bounds(s, p + 1);
    lemma_find_bounds(s, p + 1, p + 1, 0, Stop::Char(']'));
    lemma_find_bounds(s, p + 1, p + 1, 0, Stop::Either(',', ']'));
    lemma_slot_in_order(s, p, st);
    let c = s[p];
    let n = s.len() as int;
    if c == '=' {
        lemma_emits(common_step(s, p, st), p, n);
    } else if c == '"' {
        lemma_emits(common_step(s, p, st), p, n);
    } else if crate::format::is_digit(c) {
        lemma_emits(common_step(s, p, st), p, n);
    } else if c == '{' {
    } else if c == '[' {
        lemma_emits(common_step(s, p, st), p, n);
    } else if c == ']' {
        lemma_emits(common_step(s, p, st), p, n);
    } else if c == ',' {
        lemma_emits(common_step(s, p, st), p, n);
    } else if c == ':' {
        lemma_emits(common_step(s, p, st), p, n);
    } else if crate::lexer::is_name_start(c) {
        lemma_emits(common_step(s, p, st), p, n);
    } else {
        lemma_one_in_order(
            TokenModel { kind: KindModel::Unknown(c), at: p as usize },
            p + 1,
            st,
            p,
            n,
        );
    }
}

proof fn lemma_tag_in_order(s: Seq<char>, p: int, st: LexState)
    requires
        0 <= p < s.len() <= usize::MAX,
    ensures
        step_in_order(tag_step(s, p, st), p, s.len() as int),
{
    lemma_word_end_bounds(s, p, false);
    lemma_common_in_order(s, p, st);
    let c = s[p];
    if c == '>' || (c == '/' && crate::format::at(s, p + 1, '>')) || (c == '?'
        && crate::format::at(s, p + 1, '>')) || (st.doctype && crate::lexer::is_name_start(c)) {
        lemma_emits(tag_step(s, p, st), p, s.len() as int);
    }
}

proof fn lemma_angle_in_order(s: Seq<char>, p: int, st: LexState)
    requires
        0 <= p < s.len() <= usize::MAX,
    ensures
        step_in_order(angle_step(s, p, st), p, s.len() as int),
{
    let n = s.len() as int;
    if p + 2 <= n {
        let a = lead(s, p + 2, n);
        lemma_lead_bounds(s, p + 2, n);
        lemma_word_end_bounds(s, a, false);
        lemma_lead_bounds(s, word_end(s, a, false), n);
    }
    lemma_emits(angle_step(s, p, st), p, n);
}

proof fn lemma_for_in_order(s: Seq<char>, p: int, e: int, st: LexState)
    requires
        0 <= p < e <= s.len() <= usize::MAX,
    ensures
        step_in_order(for_step(s, p, e, st), p, s.len() as int),
{
    let n = s.len() as int;
    lemma_find_bounds(s, e, e, 0, Stop::In);
    lemma_lead_bounds(s, e, n);
    match find(s, e, e, 0, Stop::In) {
        Some(q) => {
            lemma_lead_bounds(s, e, q);
        },
        None => {},
    }
    lemma_emits(for_step(s, p, e, st), p, n);
}

proof fn lemma_let_in_order(s: Seq<char>, p: int, e: int, st: LexState)
    requires
        0 <= p < e <= s.len() <= usize::MAX,
    ensures
        step_in_order(let_step(s, p, e, st), p, s.len() as int),
{
    let n = s.len() as int;
    lemma_find_bounds(s, e, e, 0, Stop::Char('='));
    lemma_lead_bounds(s, e, n);
    match find(s, e, e, 0, Stop::Char('=')) {
        Some(q) => {
            lemma_lead_bounds(s, e, q);
            lemma_find_bounds(s, q + 1, q + 1, 0, Stop::Char(';'));
            lemma_lead_bounds(s, q + 1, n);
            match find(s, q + 1, q + 1, 0, Stop::Char(';')) {
                Some(r) => {
                    lemma_lead_bounds(s, q + 1, r);
                },
                None => {},
            }
        },
        None => {},
    }
    lemma_emits(let_step(s, p, e, st), p, n);
}

proof fn lemma_word_in_order(s: Seq<char>, p: int, st: LexState)
    requires
        0 <= p < s.len() <= usize::MAX,
        crate::lexer::is_name_start(s[p]),
    ensures
        step_in_order(word_step(s, p, st), p, s.len() as int),
{
    let e = word_end(s, p, false);
    lemma_word_end_bounds(s, p, false);
    lemma_word_end_bounds(s, p + 1, false);
    lemma_for_in_order(s, p, e, st);
    lemma_let_in_order(s, p, e, st);
    if !crate::lexer::word3(s, p, e, 'f', 'o', 'r') && !crate::lexer::word3(s, p, e, 'l', 'e', 't') {
        lemma_emits(word_step(s, p, st), p, s.len() as int);
    }
}

proof fn lemma_arm_in_order(s: Seq<char>, p: int, st: LexState)
    requires
        0 <= p < s.len() <= usize::MAX,
    ensures
        step_in_order(arm_step(s, p, st), p, s.len() as int),
{
    lemma_find_bounds(s, p, p, 0, Stop::Arrow);
    lemma_emits(arm_step(s, p, st), p, s.len() as int);
}

proof fn lemma_body_in_order(s: Seq<char>, p: int, st: LexState)
    requires
        0 <= p < s.len() <= usize::MAX,
    ensures
        step_in_order(body_step(s, p, st), p, s.len() as int),
{
    let c = s[p];
    lemma_arm_in_order(s, p, st);
    lemma_angle_in_order(s, p, st);
    lemma_common_in_order(s, p, st);
    lemma_find_bounds(s, p + 1, p + 1, 0, Stop::Char(')'));
    if crate::lexer::is_name_start(c) {
        lemma_word_in_order(s, p, st);
    }
    if st.blocks.len() > 0 && st.blocks.last() && st.pending == crate::lexer::Pending::Nothing
        && c != '}' {
    } else if c == '<' {
    } else if c == '-' && crate::format::at(s, p + 1, '-') && crate::format::at(s, p + 2, '>') {
        lemma_emits(body_step(s, p, st), p, s.len() as int);
    } else if c == '{' && (st.pending == crate::lexer::Pending::Body || st.pending
        == crate::lexer::Pending::Arms) {
        lemma_emits(body_step(s, p, st), p, s.len() as int);
    } else if c == '}' {
        lemma_emits(body_step(s, p, st), p, s.len() as int);
    } else if c == '(' {
        lemma_emits(body_step(s, p, st), p, s.len() as int);
    }
}

/// What a step adds begins at or after the step, not beyond where the
/// lexer goes on, and in order.
proof fn lemma_step_in_order(s: Seq<char>, p: int, st: LexState)
    requires
        0 <= p < s.len() <= usize::MAX,
    ensures
        step(s, p, st) is Emit ==> in_order(step(s, p, st)->Emit_0, p, step(s, p, st)->Emit_1)
            && p <= step(s, p, st)->Emit_1 <= s.len(),
{
    lemma_tag_in_order(s, p, st);
    lemma_body_in_order(s, p, st);
}

proof fn lemma_lexed_in_order(s: Seq<char>, pos: int, st: LexState)
    requires
        0 <= pos <= s.len() <= usize::MAX,
    ensures
        lex_from(s, pos, st) is Ok ==> in_order(lex_from(s, pos, st)->Ok_0, pos, s.len() as int),
    decreases s.len() - pos,
{
    let p = lead(s, pos, s.len() as int);
    lemma_lead_bounds(s, pos, s.len() as int);
    if p < s.len() && lex_from(s, pos, st) is Ok {
        lemma_step_in_order(s, p, st);
        match step(s, p, st) {
            Step::Emit(tokens, next, then) => {
                if !(next <= p || next > s.len()) {
                    lemma_lexed_in_order(s, next, then);
                    let rest = lex_from(s, next, then)->Ok_0;
                    let all = tokens + rest;
                    assert forall|k: int| 0 <= k < all.len() implies pos <= (
                    #[trigger] all[k]).at <= s.len() by {
                        if k < tokens.len() {
                            assert(all[k] == tokens[k]);
                        } else {
                            assert(all[k] == rest[k - tokens.len()]);
                        }
                    }
                    assert forall|a: int, b: int| 0 <= a <= b < all.len() implies (
                    #[trigger] all[a]).at <= (#[trigger] all[b]).at by {
                        if b < tokens.len() {
                            assert(all[a] == tokens[a] && all[b] == tokens[b]);
                        } else if a >= tokens.len() {
                            assert(all[a] == rest[a - tokens.len()]);
                            assert(all[b] == rest[b - tokens.len()]);
                        } else {
                            assert(all[a] == tokens[a]);
                            assert(all[b] == rest[b - tokens.len()]);
                        }
                    }
                }
            },
            Step::Fail(_) => {},
        }
    }
}

/// The tokens of a template come in the order of the source: each begins
/// within the source, or at its end where it is an empty pattern or
/// expression, and none begins before the token before it.
pub proof fn law_tokens_in_order(s: Seq<char>)
    requires
        s.len() <= usize::MAX,
    ensures
        lexed(s) is Ok ==> in_order(lexed(s)->Ok_0, 0, s.len() as int),
{
    lemma_lexed_in_order(s, 0, crate::lexer::initial());
}


} // verus!
